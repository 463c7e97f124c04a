//! The mathematical model of a header: its view, the sizes it determines,
//! and the lemmas about them.

use vstd::prelude::*;

use super::{Extension, ExtensionProfile};

verus! {

/// The abstract value of an `Extension`.
#[verifier::ext_equal]
pub struct ExtensionModel {
    pub id: u8,
    pub payload: Seq<u8>,
}

/// The abstract value of a `Header`.
#[verifier::ext_equal]
pub struct HeaderModel {
    pub version: u8,
    pub padding: bool,
    pub extension: bool,
    pub marker: bool,
    pub payload_type: u8,
    pub sequence_number: u16,
    pub timestamp: u32,
    pub ssrc: u32,
    pub csrc: Seq<u32>,
    pub extension_profile: u16,
    pub extensions: Seq<ExtensionModel>,
}

/// The profile that a 16-bit profile field names.
pub open spec fn profile_of(v: u16) -> ExtensionProfile {
    if v == 0xBEDE {
        ExtensionProfile::OneByte
    } else if v == 0x1000 {
        ExtensionProfile::TwoByte
    } else {
        ExtensionProfile::Undefined
    }
}

/// The bytes that the extensions `s` take, each with a prefix of `per`
/// bytes before its payload.
pub open spec fn ext_bytes_len(s: Seq<ExtensionModel>, per: int) -> int
    decreases s.len(),
{
    if s.len() == 0 {
        0
    } else {
        ext_bytes_len(s.drop_last(), per) + per + s.last().payload.len()
    }
}

impl HeaderModel {
    /// The profile named by the extension profile field.
    pub open spec fn profile(self) -> ExtensionProfile {
        profile_of(self.extension_profile)
    }

    /// The number of bytes of extension data before padding.
    pub open spec fn extension_payload_len(self) -> int {
        match self.profile() {
            ExtensionProfile::OneByte => ext_bytes_len(self.extensions, 1),
            ExtensionProfile::TwoByte => ext_bytes_len(self.extensions, 2),
            ExtensionProfile::Undefined => self.extensions[0].payload.len() as int,
        }
    }

    /// The number of bytes of the marshaled header.
    pub open spec fn marshal_size(self) -> int {
        12 + 4 * self.csrc.len() + if self.extension {
            4 + ((self.extension_payload_len() + 3) / 4) * 4
        } else {
            0
        }
    }

    /// The size is computable: an RFC 3550 extension block has its extension,
    /// and the size fits in `usize`.
    pub open spec fn size_is_defined(self) -> bool {
        &&& (self.extension && self.profile() == ExtensionProfile::Undefined)
            ==> self.extensions.len() > 0
        &&& self.marshal_size() <= usize::MAX
    }
}

/// The extension data length is non-negative, and the marshaled size covers
/// the fixed header, the CSRC list and all extension data.
pub proof fn lemma_marshal_size_bounds(h: HeaderModel)
    ensures
        h.extension_payload_len() >= 0,
        h.marshal_size() >= 12 + 4 * h.csrc.len(),
        h.extension ==> h.marshal_size() >= 16 + 4 * h.csrc.len() + h.extension_payload_len(),
{
    lemma_ext_bytes_len_nonneg(h.extensions, 1);
    lemma_ext_bytes_len_nonneg(h.extensions, 2);
}

/// The models of a list of extensions.
pub open spec fn ext_models(v: Seq<Extension>) -> Seq<ExtensionModel> {
    v.map_values(|e: Extension| e@)
}

pub proof fn lemma_ext_models_push(v: Seq<Extension>, e: Extension)
    ensures
        ext_models(v.push(e)) =~= ext_models(v).push(e@),
{
}

pub proof fn lemma_ext_bytes_len_step(s: Seq<ExtensionModel>, i: int, per: int)
    requires
        0 <= i < s.len(),
    ensures
        ext_bytes_len(s.take(i + 1), per) == ext_bytes_len(s.take(i), per) + per
            + s[i].payload.len(),
{
    assert(s.take(i + 1).drop_last() =~= s.take(i));
}

pub proof fn lemma_ext_bytes_len_prefix(s: Seq<ExtensionModel>, i: int, per: int)
    requires
        0 <= i <= s.len(),
        per >= 0,
    ensures
        0 <= ext_bytes_len(s.take(i), per) <= ext_bytes_len(s, per),
    decreases s.len(),
{
    if i == s.len() {
        assert(s.take(i) =~= s);
        lemma_ext_bytes_len_nonneg(s, per);
    } else {
        lemma_ext_bytes_len_prefix(s.drop_last(), i, per);
        assert(s.drop_last().take(i) =~= s.take(i));
    }
}

pub proof fn lemma_ext_bytes_len_nonneg(s: Seq<ExtensionModel>, per: int)
    requires
        per >= 0,
    ensures
        ext_bytes_len(s, per) >= 0,
    decreases s.len(),
{
    if s.len() > 0 {
        lemma_ext_bytes_len_nonneg(s.drop_last(), per);
    }
}

} // verus!
