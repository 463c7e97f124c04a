//! The RTP fixed header with its CSRC list and header extensions.

use vstd::prelude::*;

pub mod extensions;
pub mod laws;
pub mod marshal;
pub mod padding;
pub mod model;
pub mod roundtrip;
pub mod unmarshal;
pub mod wire;

use model::{
    ext_bytes_len, lemma_ext_bytes_len_prefix, lemma_ext_bytes_len_step, lemma_marshal_size_bounds, profile_of, ExtensionModel,
    HeaderModel,
};

verus! {

pub(crate) const HEADER_LENGTH: usize = 4;
pub(crate) const VERSION_SHIFT: u8 = 6;
pub(crate) const VERSION_MASK: u8 = 0x3;
pub(crate) const PADDING_SHIFT: u8 = 5;
pub(crate) const PADDING_MASK: u8 = 0x1;
pub(crate) const EXTENSION_SHIFT: u8 = 4;
pub(crate) const EXTENSION_MASK: u8 = 0x1;
pub(crate) const EXTENSION_ID_RESERVED: u8 = 0xF;
pub(crate) const CC_MASK: u8 = 0xF;
pub(crate) const MARKER_SHIFT: u8 = 7;
pub(crate) const MARKER_MASK: u8 = 0x1;
pub(crate) const PT_MASK: u8 = 0x7F;
pub(crate) const SEQ_NUM_OFFSET: usize = 2;
pub(crate) const TIMESTAMP_OFFSET: usize = 4;
pub(crate) const SSRC_OFFSET: usize = 8;
pub(crate) const CSRC_OFFSET: usize = 12;
pub(crate) const CSRC_LENGTH: usize = 4;

/// The profile of a header extension block, named by its 16-bit profile field.
#[derive(Debug, Copy, Clone, PartialEq, Eq, Structural)]
pub enum ExtensionProfile {
    /// RFC 8285 one-byte header extensions (profile 0xBEDE).
    OneByte,
    /// RFC 8285 two-byte header extensions (profile 0x1000).
    TwoByte,
    /// Any other profile: a single RFC 3550 extension.
    Undefined,
}

impl ExtensionProfile {
    /// The profile number of the variant: 0xBEDE for one-byte and 0x1000
    /// for two-byte extensions; `Undefined` has the number after 0x1000.
    pub open spec fn spec_number(self) -> u16 {
        match self {
            ExtensionProfile::OneByte => 0xBEDE,
            ExtensionProfile::TwoByte => 0x1000,
            ExtensionProfile::Undefined => 0x1001,
        }
    }

    /// Returns the profile number of the variant.
    pub fn as_u16(&self) -> (v: u16)
        ensures
            v == self.spec_number(),
    {
        match self {
            ExtensionProfile::OneByte => 0xBEDE,
            ExtensionProfile::TwoByte => 0x1000,
            ExtensionProfile::Undefined => 0x1001,
        }
    }
}

impl vstd::std_specs::convert::FromSpecImpl<u16> for ExtensionProfile {
    open spec fn obeys_from_spec() -> bool {
        true
    }

    open spec fn from_spec(v: u16) -> Self {
        profile_of(v)
    }
}

impl From<u16> for ExtensionProfile {
    fn from(val: u16) -> (r: Self)
        ensures
            r == profile_of(val),
    {
        if val == 0xBEDE {
            ExtensionProfile::OneByte
        } else if val == 0x1000 {
            ExtensionProfile::TwoByte
        } else {
            ExtensionProfile::Undefined
        }
    }
}

impl Default for ExtensionProfile {
    fn default() -> (r: Self)
        ensures
            r == ExtensionProfile::Undefined,
    {
        ExtensionProfile::from(0u16)
    }
}

/// One header extension: its id and its payload bytes.
#[derive(Debug, Eq, Clone, PartialEq, Default)]
pub struct Extension {
    pub id: u8,
    pub payload: Vec<u8>,
}

impl View for Extension {
    type V = ExtensionModel;

    open spec fn view(&self) -> ExtensionModel {
        ExtensionModel { id: self.id, payload: self.payload@ }
    }
}

/// Header represents an RTP packet header.
#[derive(Debug, Eq, Clone, PartialEq, Default)]
pub struct Header {
    pub version: u8,
    pub padding: bool,
    pub extension: bool,
    pub marker: bool,
    pub payload_type: u8,
    pub sequence_number: u16,
    pub timestamp: u32,
    pub ssrc: u32,
    pub csrc: Vec<u32>,
    pub extension_profile: u16,
    pub extensions: Vec<Extension>,
}

impl View for Header {
    type V = HeaderModel;

    open spec fn view(&self) -> HeaderModel {
        HeaderModel {
            version: self.version,
            padding: self.padding,
            extension: self.extension,
            marker: self.marker,
            payload_type: self.payload_type,
            sequence_number: self.sequence_number,
            timestamp: self.timestamp,
            ssrc: self.ssrc,
            csrc: self.csrc@,
            extension_profile: self.extension_profile,
            extensions: self.extensions@.map_values(|e: Extension| e@),
        }
    }
}

impl Header {
    /// Returns the size of the packet once marshaled.
    pub fn marshal_size(&self) -> (n: usize)
        requires
            self@.size_is_defined(),
        ensures
            n == self@.marshal_size(),
    {
        proof {
            lemma_marshal_size_bounds(self@);
        }
        let mut head_size = 12 + (self.csrc.len() * CSRC_LENGTH);
        if self.extension {
            let extension_payload_len = self.get_extension_payload_len();
            let extension_payload_size = (extension_payload_len + 3) / 4;
            head_size += 4 + extension_payload_size * 4;
        }
        head_size
    }

    fn get_extension_payload_len(&self) -> (n: usize)
        requires
            self@.profile() == ExtensionProfile::Undefined ==> self.extensions.len() > 0,
            self@.extension_payload_len() <= usize::MAX,
        ensures
            n == self@.extension_payload_len(),
    {
        let ghost exts = self@.extensions;
        let mut extension_length: usize = 0;
        match ExtensionProfile::from(self.extension_profile) {
            ExtensionProfile::OneByte => {
                let mut i: usize = 0;
                while i < self.extensions.len()
                    invariant
                        exts == self@.extensions,
                        self@.profile() == ExtensionProfile::OneByte,
                        self@.extension_payload_len() <= usize::MAX,
                        i <= exts.len(),
                        extension_length == ext_bytes_len(exts.take(i as int), 1),
                    decreases exts.len() - i,
                {
                    proof {
                        lemma_ext_bytes_len_step(exts, i as int, 1);
                        lemma_ext_bytes_len_prefix(exts, i as int + 1, 1);
                    }
                    extension_length += 1 + self.extensions[i].payload.len();
                    i += 1;
                }
                proof {
                    assert(exts.take(exts.len() as int) =~= exts);
                }
            },
            ExtensionProfile::TwoByte => {
                let mut i: usize = 0;
                while i < self.extensions.len()
                    invariant
                        exts == self@.extensions,
                        self@.profile() == ExtensionProfile::TwoByte,
                        self@.extension_payload_len() <= usize::MAX,
                        i <= exts.len(),
                        extension_length == ext_bytes_len(exts.take(i as int), 2),
                    decreases exts.len() - i,
                {
                    proof {
                        lemma_ext_bytes_len_step(exts, i as int, 2);
                        lemma_ext_bytes_len_prefix(exts, i as int + 1, 2);
                    }
                    extension_length += 2 + self.extensions[i].payload.len();
                    i += 1;
                }
                proof {
                    assert(exts.take(exts.len() as int) =~= exts);
                }
            },
            _ => {
                extension_length += self.extensions[0].payload.len();
            },
        };
        extension_length
    }
}

} // verus!
