//! Properties that relate the header operations to one another.

use vstd::prelude::*;

use super::extensions::{
    first_index, lemma_first_index, lemma_first_index_at, set_extension_error, set_extension_model,
};
use super::model::{lemma_marshal_size_bounds, HeaderModel};
use super::ExtensionProfile;
use crate::errors::RTPError;
use super::wire::{csrc_count, parse_one_byte, parse_two_byte, unmarshal_in_bounds, unmarshal_spec};

verus! {

/// After an extension is set, getting its id gives the payload that was set,
/// unless extensions were disabled while an older extension with that id was
/// still listed (that one is found first).
pub proof fn lemma_get_after_set(h: HeaderModel, id: u8, payload: Seq<u8>)
    requires
        set_extension_error(h, id, payload.len() as int) is None,
        h.extension || first_index(h.extensions, id) < 0,
    ensures
        set_extension_model(h, id, payload).lookup(id) == Some(payload),
{
    let h2 = set_extension_model(h, id, payload);
    lemma_first_index(h.extensions, id);
    let k = first_index(h.extensions, id);
    if k >= 0 {
        lemma_first_index_at(h2.extensions, id, k);
    } else {
        lemma_first_index_at(h2.extensions, id, h.extensions.len() as int);
    }
}

/// Setting an extension leaves what the other ids give unchanged, while
/// extensions are enabled.
pub proof fn lemma_set_keeps_other_ids(h: HeaderModel, id: u8, other: u8, payload: Seq<u8>)
    requires
        set_extension_error(h, id, payload.len() as int) is None,
        h.extension,
        other != id,
    ensures
        set_extension_model(h, id, payload).lookup(other) == h.lookup(other),
{
    let h2 = set_extension_model(h, id, payload);
    lemma_first_index(h.extensions, id);
    lemma_first_index(h.extensions, other);
    let k = first_index(h.extensions, other);
    if k >= 0 {
        lemma_first_index_at(h2.extensions, other, k);
    } else {
        lemma_first_index_at(h2.extensions, other, h2.extensions.len() as int);
    }
}

/// Deleting the only extension with an id leaves nothing to get for that id.
pub proof fn lemma_get_after_del(h: HeaderModel, id: u8, k: int)
    requires
        h.extension,
        0 <= k < h.extensions.len(),
        h.extensions[k].id == id,
        forall|j: int| 0 <= j < h.extensions.len() && j != k ==> #[trigger] h.extensions[j].id != id,
    ensures
        first_index(h.extensions, id) == k,
        (HeaderModel { extensions: h.extensions.remove(k), ..h }).lookup(id) is None,
{
    lemma_first_index_at(h.extensions, id, k);
    let rest = h.extensions.remove(k);
    assert forall|j: int| 0 <= j < rest.len() implies #[trigger] rest[j].id != id by {
        if j < k {
            assert(rest[j] == h.extensions[j]);
        } else {
            assert(rest[j] == h.extensions[j + 1]);
        }
    }
    lemma_first_index_at(rest, id, rest.len() as int);
}

/// The marshaled header is a whole number of 32-bit words.
pub proof fn lemma_marshal_size_aligned(h: HeaderModel)
    ensures
        h.marshal_size() % 4 == 0,
{
    lemma_marshal_size_bounds(h);
}

proof fn lemma_parse_one_byte_end(raw: Seq<u8>, off: int, end: int)
    requires
        off <= raw.len(),
        end <= raw.len(),
    ensures
        parse_one_byte(raw, off, end) matches Some((_, o)) ==> off <= o <= raw.len(),
    decreases (if off < end {
        end - off
    } else {
        0
    }),
{
    if off < end {
        if raw[off] == 0 {
            lemma_parse_one_byte_end(raw, off + 1, end);
        } else {
            let len = (raw[off] & 0x0Fu8) + 1;
            if off + 1 + len <= raw.len() {
                lemma_parse_one_byte_end(raw, off + 1 + len, end);
            }
        }
    }
}

proof fn lemma_parse_two_byte_end(raw: Seq<u8>, off: int, end: int)
    requires
        off <= raw.len(),
        end <= raw.len(),
    ensures
        parse_two_byte(raw, off, end) matches Some((_, o)) ==> off <= o <= raw.len(),
    decreases (if off < end {
        end - off
    } else {
        0
    }),
{
    if off < end {
        if raw[off] == 0 {
            lemma_parse_two_byte_end(raw, off + 1, end);
        } else if off + 1 < raw.len() {
            let len = raw[off + 1] as int;
            if off + 2 + len <= raw.len() {
                lemma_parse_two_byte_end(raw, off + 2 + len, end);
            }
        }
    }
}

/// Unmarshalling reports a header length that lies inside the packet and
/// covers the fixed header and CSRC list.
pub proof fn lemma_unmarshal_offset_in_packet(h: HeaderModel, raw: Seq<u8>)
    requires
        unmarshal_in_bounds(raw),
        raw.len() <= usize::MAX,
    ensures
        unmarshal_spec(h, raw) matches Some((_, Ok(n))) ==> 12 + 4 * csrc_count(raw[0]) <= n
            <= raw.len(),
{
    if raw.len() >= 4 {
        let off = 12 + 4 * csrc_count(raw[0]);
        if raw.len() >= off {
            assert(off as usize == off);
            let body = off + 4;
            let end = body + crate::endian::be16_at(raw, off + 2) * 4;
            if raw.len() >= end && raw.len() >= off + 4 {
                lemma_parse_one_byte_end(raw, body, end);
                lemma_parse_two_byte_end(raw, body, end);
            }
        }
    }
}

/// A successful read does not depend on the header read into: reading the
/// same packet into any other header returns the same result and leaves the
/// same header, except that where the packet has no extension block each
/// header keeps its own extension profile.
pub proof fn lemma_unmarshal_independent_of_target(h1: HeaderModel, h2: HeaderModel, raw: Seq<u8>)
    requires
        unmarshal_spec(h1, raw) matches Some((_, r)) && r is Ok,
    ensures
        unmarshal_spec(h2, raw) is Some,
        unmarshal_spec(h2, raw).unwrap().1 == unmarshal_spec(h1, raw).unwrap().1,
        (HeaderModel { extension_profile: 0, ..unmarshal_spec(h2, raw).unwrap().0 }) == (
        HeaderModel { extension_profile: 0, ..unmarshal_spec(h1, raw).unwrap().0 }),
        ((raw[0] >> 4u8) & 0x1u8) > 0 ==> unmarshal_spec(h2, raw).unwrap().0 == unmarshal_spec(
            h1,
            raw,
        ).unwrap().0,
{
    let g1 = unmarshal_spec(h1, raw).unwrap().0;
    let g2 = unmarshal_spec(h2, raw).unwrap().0;
    assert(HeaderModel { extension_profile: 0, ..g2 } =~~= HeaderModel {
        extension_profile: 0,
        ..g1
    });
    if ((raw[0] >> 4u8) & 0x1u8) > 0 {
        assert(g2 =~~= g1);
    }
}

/// While extensions are enabled, the listed ids are the extensions' ids,
/// one per extension and in order, whatever the profile.
pub proof fn lemma_listed_ids_are_extension_ids(h: HeaderModel)
    requires
        h.extension,
    ensures
        h.listed_ids().len() == h.extensions.len(),
        forall|i: int| 0 <= i < h.extensions.len() ==> h.listed_ids()[i] == h.extensions[i].id,
{
}

/// While extensions are disabled, no id is listed.
pub proof fn lemma_no_ids_listed_while_disabled(h: HeaderModel)
    requires
        !h.extension,
    ensures
        h.listed_ids().len() == 0,
{
}

/// With one-byte extensions, ids outside 1..=14 are refused, then payloads
/// over 16 bytes; everything else is accepted.
pub proof fn lemma_set_extension_one_byte_rules(h: HeaderModel, id: u8, len: int)
    requires
        h.extension,
        h.extension_profile == 0xBEDE,
    ensures
        (id < 1 || id > 14) ==> set_extension_error(h, id, len) == Some(
            RTPError::RFC8285OneByteHeaderIDRange(id),
        ),
        (1 <= id <= 14 && len > 16) ==> set_extension_error(h, id, len) == Some(
            RTPError::RFC8285OneByteHeaderSize(id),
        ),
        (1 <= id <= 14 && len <= 16) ==> set_extension_error(h, id, len) is None,
{
}

/// With two-byte extensions, id 0 is refused, then payloads over 255 bytes;
/// everything else is accepted.
pub proof fn lemma_set_extension_two_byte_rules(h: HeaderModel, id: u8, len: int)
    requires
        h.extension,
        h.extension_profile == 0x1000,
    ensures
        id == 0 ==> set_extension_error(h, id, len) == Some(
            RTPError::RFC8285TwoByteHeaderIDRange(id),
        ),
        (id != 0 && len > 255) ==> set_extension_error(h, id, len) == Some(
            RTPError::RFC8285TwoByteHeaderSize(id),
        ),
        (id != 0 && len <= 255) ==> set_extension_error(h, id, len) is None,
{
}

/// With any other profile, only id 0 is accepted, at any payload length.
pub proof fn lemma_set_extension_rfc3550_rules(h: HeaderModel, id: u8, len: int)
    requires
        h.extension,
        h.extension_profile != 0xBEDE,
        h.extension_profile != 0x1000,
    ensures
        id != 0 ==> set_extension_error(h, id, len) == Some(RTPError::RFC3550HeaderIDRange(id)),
        id == 0 ==> set_extension_error(h, id, len) is None,
{
}

/// While extensions are disabled, every extension is accepted.
pub proof fn lemma_set_extension_accepted_while_disabled(h: HeaderModel, id: u8, len: int)
    requires
        !h.extension,
    ensures
        set_extension_error(h, id, len) is None,
{
}

/// Setting extensions on a one-byte header keeps every id in 1..=14 and
/// every payload at most 16 bytes long, and keeps the profile.
pub proof fn lemma_set_extension_keeps_one_byte_valid(h: HeaderModel, id: u8, payload: Seq<u8>)
    requires
        h.extension,
        h.profile() == ExtensionProfile::OneByte,
        forall|i: int|
            0 <= i < h.extensions.len() ==> {
                &&& 1 <= #[trigger] h.extensions[i].id <= 14
                &&& h.extensions[i].payload.len() <= 16
            },
        set_extension_error(h, id, payload.len() as int) is None,
    ensures
        ({
            let h2 = set_extension_model(h, id, payload);
            &&& h2.extension_profile == h.extension_profile
            &&& forall|i: int|
                0 <= i < h2.extensions.len() ==> {
                    &&& 1 <= #[trigger] h2.extensions[i].id <= 14
                    &&& h2.extensions[i].payload.len() <= 16
                }
        }),
{
    lemma_first_index(h.extensions, id);
}

} // verus!
