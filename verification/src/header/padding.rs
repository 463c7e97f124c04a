//! Zero padding inside an RFC 8285 extension block: parsing skips it
//! wherever it stands and reads every element around it.

use vstd::prelude::*;

use super::model::{ExtensionModel, HeaderModel};
use super::roundtrip::{lemma_be16_value, lemma_fixed_fields_roundtrip, lemma_one_byte_header_bits};
use super::wire::{
    fixed_bytes, lemma_fixed_bytes_len, one_byte_item, parse_one_byte, parse_two_byte,
    two_byte_item, unmarshal_in_bounds, unmarshal_spec, with_fixed_fields, zeros,
};
use super::ExtensionProfile;
use crate::endian::{be16, be16_at};
use crate::errors::RTPError;

verus! {

/// One-byte elements, each after its own run of zero padding bytes.
pub open spec fn padded_one_byte_body(s: Seq<ExtensionModel>, pads: Seq<nat>) -> Seq<u8>
    decreases s.len(),
{
    if s.len() == 0 {
        seq![]
    } else {
        zeros(pads[0]) + one_byte_item(s[0]) + padded_one_byte_body(s.drop_first(), pads.drop_first())
    }
}

/// Two-byte elements, each after its own run of zero padding bytes.
pub open spec fn padded_two_byte_body(s: Seq<ExtensionModel>, pads: Seq<nat>) -> Seq<u8>
    decreases s.len(),
{
    if s.len() == 0 {
        seq![]
    } else {
        zeros(pads[0]) + two_byte_item(s[0]) + padded_two_byte_body(s.drop_first(), pads.drop_first())
    }
}

/// A zero byte inside a one-byte extension block is padding: what is read
/// from it equals what is read from the next byte.
pub proof fn lemma_one_byte_padding_skipped(raw: Seq<u8>, off: int, end: int)
    requires
        off < end,
        raw[off] == 0,
    ensures
        parse_one_byte(raw, off, end) == parse_one_byte(raw, off + 1, end),
{
}

/// A zero byte inside a two-byte extension block is padding: what is read
/// from it equals what is read from the next byte.
pub proof fn lemma_two_byte_padding_skipped(raw: Seq<u8>, off: int, end: int)
    requires
        off < end,
        raw[off] == 0,
    ensures
        parse_two_byte(raw, off, end) == parse_two_byte(raw, off + 1, end),
{
}

/// A run of zero bytes inside a one-byte extension block is skipped.
pub proof fn lemma_one_byte_zero_run_skipped(raw: Seq<u8>, off: int, k: int, end: int)
    requires
        0 <= k,
        off + k <= end,
        forall|j: int| off <= j < off + k ==> raw[j] == 0,
    ensures
        parse_one_byte(raw, off, end) == parse_one_byte(raw, off + k, end),
    decreases k,
{
    if k > 0 {
        lemma_one_byte_zero_run_skipped(raw, off + 1, k - 1, end);
    }
}

/// A run of zero bytes inside a two-byte extension block is skipped.
pub proof fn lemma_two_byte_zero_run_skipped(raw: Seq<u8>, off: int, k: int, end: int)
    requires
        0 <= k,
        off + k <= end,
        forall|j: int| off <= j < off + k ==> raw[j] == 0,
    ensures
        parse_two_byte(raw, off, end) == parse_two_byte(raw, off + k, end),
    decreases k,
{
    if k > 0 {
        lemma_two_byte_zero_run_skipped(raw, off + 1, k - 1, end);
    }
}

proof fn lemma_padded_one_byte_body_len(s: Seq<ExtensionModel>, pads: Seq<nat>)
    requires
        pads.len() == s.len(),
    ensures
        s.len() > 0 ==> padded_one_byte_body(s, pads).len() == pads[0] + one_byte_item(s[0]).len()
            + padded_one_byte_body(s.drop_first(), pads.drop_first()).len(),
{
}

/// One-byte parsing reads every element of a block whose elements are
/// separated by any runs of zero padding, whatever follows as padding.
pub proof fn lemma_parse_one_byte_padded(
    raw: Seq<u8>,
    off: int,
    end: int,
    s: Seq<ExtensionModel>,
    pads: Seq<nat>,
)
    requires
        forall|i: int|
            0 <= i < s.len() ==> {
                &&& 1 <= #[trigger] s[i].id <= 14
                &&& 1 <= s[i].payload.len() <= 16
            },
        pads.len() == s.len(),
        0 <= off,
        off + padded_one_byte_body(s, pads).len() <= end <= raw.len(),
        raw.subrange(off, off + padded_one_byte_body(s, pads).len()) == padded_one_byte_body(
            s,
            pads,
        ),
        forall|j: int| off + padded_one_byte_body(s, pads).len() <= j < end ==> raw[j] == 0,
    ensures
        parse_one_byte(raw, off, end) == Some((s, end)),
    decreases s.len(),
{
    let body = padded_one_byte_body(s, pads);
    if s.len() == 0 {
        lemma_one_byte_zero_run_skipped(raw, off, end - off, end);
        assert(s =~= Seq::<ExtensionModel>::empty());
    } else {
        let e = s[0];
        let p = pads[0] as int;
        let rest = s.drop_first();
        let rest_pads = pads.drop_first();
        let item = one_byte_item(e);
        let rest_body = padded_one_byte_body(rest, rest_pads);
        lemma_padded_one_byte_body_len(s, pads);
        assert(body == zeros(pads[0]) + item + rest_body);
        assert forall|j: int| off <= j < off + p implies raw[j] == 0 by {
            assert(raw[j] == body[j - off]);
        }
        lemma_one_byte_zero_run_skipped(raw, off, p, end);
        let at = off + p;
        let n = (e.payload.len() - 1) as u8;
        assert(n == e.payload.len() - 1);
        lemma_one_byte_header_bits(e.id, n);
        assert(raw[at] == body[p]);
        assert(body[p] == item[0]);
        let off2 = at + 1 + e.payload.len();
        assert(raw.subrange(at + 1, off2) =~= e.payload) by {
            assert forall|k: int| 0 <= k < e.payload.len() implies raw.subrange(at + 1, off2)[k]
                == e.payload[k] by {
                assert(raw[at + 1 + k] == body[p + 1 + k]);
                assert(body[p + 1 + k] == item[1 + k]);
            }
        }
        assert(raw.subrange(off2, off2 + rest_body.len()) =~= rest_body) by {
            assert forall|k: int| 0 <= k < rest_body.len() implies raw.subrange(
                off2,
                off2 + rest_body.len(),
            )[k] == rest_body[k] by {
                assert(raw[off2 + k] == body[p + item.len() + k]);
            }
        }
        lemma_parse_one_byte_padded(raw, off2, end, rest, rest_pads);
        assert(seq![ExtensionModel { id: e.id, payload: e.payload }] + rest =~= s);
    }
}

proof fn lemma_padded_two_byte_body_len(s: Seq<ExtensionModel>, pads: Seq<nat>)
    requires
        pads.len() == s.len(),
    ensures
        s.len() > 0 ==> padded_two_byte_body(s, pads).len() == pads[0] + two_byte_item(s[0]).len()
            + padded_two_byte_body(s.drop_first(), pads.drop_first()).len(),
{
}

/// Two-byte parsing reads every element of a block whose elements are
/// separated by any runs of zero padding, whatever follows as padding.
pub proof fn lemma_parse_two_byte_padded(
    raw: Seq<u8>,
    off: int,
    end: int,
    s: Seq<ExtensionModel>,
    pads: Seq<nat>,
)
    requires
        forall|i: int|
            0 <= i < s.len() ==> {
                &&& 1 <= #[trigger] s[i].id
                &&& s[i].payload.len() <= 255
            },
        pads.len() == s.len(),
        0 <= off,
        off + padded_two_byte_body(s, pads).len() <= end <= raw.len(),
        raw.subrange(off, off + padded_two_byte_body(s, pads).len()) == padded_two_byte_body(
            s,
            pads,
        ),
        forall|j: int| off + padded_two_byte_body(s, pads).len() <= j < end ==> raw[j] == 0,
    ensures
        parse_two_byte(raw, off, end) == Some((s, end)),
    decreases s.len(),
{
    let body = padded_two_byte_body(s, pads);
    if s.len() == 0 {
        lemma_two_byte_zero_run_skipped(raw, off, end - off, end);
        assert(s =~= Seq::<ExtensionModel>::empty());
    } else {
        let e = s[0];
        let p = pads[0] as int;
        let rest = s.drop_first();
        let rest_pads = pads.drop_first();
        let item = two_byte_item(e);
        let rest_body = padded_two_byte_body(rest, rest_pads);
        lemma_padded_two_byte_body_len(s, pads);
        assert(body == zeros(pads[0]) + item + rest_body);
        assert forall|j: int| off <= j < off + p implies raw[j] == 0 by {
            assert(raw[j] == body[j - off]);
        }
        lemma_two_byte_zero_run_skipped(raw, off, p, end);
        let at = off + p;
        assert(raw[at] == body[p]);
        assert(body[p] == item[0]);
        assert(raw[at + 1] == body[p + 1]);
        assert(body[p + 1] == item[1]);
        assert((e.payload.len() as u8) == e.payload.len());
        let off2 = at + 2 + e.payload.len();
        assert(raw.subrange(at + 2, off2) =~= e.payload) by {
            assert forall|k: int| 0 <= k < e.payload.len() implies raw.subrange(at + 2, off2)[k]
                == e.payload[k] by {
                assert(raw[at + 2 + k] == body[p + 2 + k]);
                assert(body[p + 2 + k] == item[2 + k]);
            }
        }
        assert(raw.subrange(off2, off2 + rest_body.len()) =~= rest_body) by {
            assert forall|k: int| 0 <= k < rest_body.len() implies raw.subrange(
                off2,
                off2 + rest_body.len(),
            )[k] == rest_body[k] by {
                assert(raw[off2 + k] == body[p + item.len() + k]);
            }
        }
        lemma_parse_two_byte_padded(raw, off2, end, rest, rest_pads);
        assert(seq![ExtensionModel { id: e.id, payload: e.payload }] + rest =~= s);
    }
}

/// A packet holding the fixed fields of `h`, an extension block header with
/// `h`'s profile and a length of `words` 32-bit words, the extension data
/// `body`, and zero padding up to that length.
pub open spec fn packet_with_block(h: HeaderModel, body: Seq<u8>, words: u16) -> Seq<u8> {
    fixed_bytes(h) + be16(h.extension_profile) + be16(words) + body + zeros(
        (words * 4 - body.len()) as nat,
    )
}

/// Shared part of the packet-level padding laws: the block's bounds and the
/// header left before the extensions are read.
proof fn lemma_packet_with_block(h: HeaderModel, target: HeaderModel, body: Seq<u8>, words: u16)
    requires
        h.version < 4,
        h.payload_type < 128,
        h.csrc.len() < 16,
        h.extension,
        body.len() <= words * 4,
    ensures
        ({
            let raw = packet_with_block(h, body, words);
            let off = 12 + 4 * h.csrc.len() as int;
            &&& raw.len() == off + 4 + words * 4
            &&& raw[0] == super::wire::first_byte(h)
            &&& super::wire::csrc_count(raw[0]) == h.csrc.len()
            &&& ((raw[0] >> 4u8) & 0x1u8) > 0
            &&& be16_at(raw, off) == h.extension_profile
            &&& be16_at(raw, off + 2) == words
            &&& raw.subrange(off + 4, off + 4 + body.len()) == body
            &&& forall|j: int| off + 4 + body.len() <= j < raw.len() ==> raw[j] == 0
            &&& HeaderModel {
                extension_profile: h.extension_profile,
                extensions: h.extensions,
                ..with_fixed_fields(target, raw)
            } == h
        }),
{
    let raw = packet_with_block(h, body, words);
    let f = fixed_bytes(h);
    let rest = be16(h.extension_profile) + be16(words) + body + zeros(
        (words * 4 - body.len()) as nat,
    );
    assert(raw =~= f + rest);
    lemma_fixed_fields_roundtrip(h, target, rest);
    lemma_fixed_bytes_len(h);
    lemma_be16_value(h.extension_profile);
    lemma_be16_value(words);
    let off = f.len() as int;
    assert(raw[off] == rest[0]);
    assert(raw[off + 1] == rest[1]);
    assert(raw[off + 2] == rest[2]);
    assert(raw[off + 3] == rest[3]);
    assert(raw.subrange(off + 4, off + 4 + body.len()) =~= body) by {
        assert forall|k: int| 0 <= k < body.len() implies raw.subrange(
            off + 4,
            off + 4 + body.len(),
        )[k] == body[k] by {
            assert(raw[off + 4 + k] == rest[4 + k]);
        }
    }
    assert forall|j: int| off + 4 + body.len() <= j < raw.len() implies raw[j] == 0 by {
        assert(raw[j] == rest[j - off]);
    }
    let g = with_fixed_fields(target, raw);
    assert(HeaderModel { extension_profile: h.extension_profile, extensions: h.extensions, ..g }
        =~~= h);
}

/// Unmarshalling a packet whose one-byte extension block has its elements
/// separated by any runs of zero padding reads every element, into any
/// header, and consumes the whole block.
pub proof fn lemma_unmarshal_one_byte_padded(
    h: HeaderModel,
    target: HeaderModel,
    pads: Seq<nat>,
    words: u16,
)
    requires
        h.version < 4,
        h.payload_type < 128,
        h.csrc.len() < 16,
        h.extension,
        h.profile() == ExtensionProfile::OneByte,
        forall|i: int|
            0 <= i < h.extensions.len() ==> {
                &&& 1 <= #[trigger] h.extensions[i].id <= 14
                &&& 1 <= h.extensions[i].payload.len() <= 16
            },
        pads.len() == h.extensions.len(),
        padded_one_byte_body(h.extensions, pads).len() <= words * 4,
    ensures
        ({
            let raw = packet_with_block(h, padded_one_byte_body(h.extensions, pads), words);
            &&& unmarshal_in_bounds(raw)
            &&& unmarshal_spec(target, raw) == Some(
                (h, Ok::<usize, RTPError>(raw.len() as usize)),
            )
        }),
{
    let body = padded_one_byte_body(h.extensions, pads);
    let raw = packet_with_block(h, body, words);
    lemma_packet_with_block(h, target, body, words);
    let off = 12 + 4 * h.csrc.len() as int;
    lemma_parse_one_byte_padded(raw, off + 4, raw.len() as int, h.extensions, pads);
    let g = with_fixed_fields(target, raw);
    assert(HeaderModel { extension_profile: h.extension_profile, extensions: h.extensions, ..g }
        == h);
}

/// Unmarshalling a packet whose two-byte extension block has its elements
/// separated by any runs of zero padding reads every element, into any
/// header, and consumes the whole block.
pub proof fn lemma_unmarshal_two_byte_padded(
    h: HeaderModel,
    target: HeaderModel,
    pads: Seq<nat>,
    words: u16,
)
    requires
        h.version < 4,
        h.payload_type < 128,
        h.csrc.len() < 16,
        h.extension,
        h.profile() == ExtensionProfile::TwoByte,
        forall|i: int|
            0 <= i < h.extensions.len() ==> {
                &&& 1 <= #[trigger] h.extensions[i].id
                &&& h.extensions[i].payload.len() <= 255
            },
        pads.len() == h.extensions.len(),
        padded_two_byte_body(h.extensions, pads).len() <= words * 4,
    ensures
        ({
            let raw = packet_with_block(h, padded_two_byte_body(h.extensions, pads), words);
            &&& unmarshal_in_bounds(raw)
            &&& unmarshal_spec(target, raw) == Some(
                (h, Ok::<usize, RTPError>(raw.len() as usize)),
            )
        }),
{
    let body = padded_two_byte_body(h.extensions, pads);
    let raw = packet_with_block(h, body, words);
    lemma_packet_with_block(h, target, body, words);
    let off = 12 + 4 * h.csrc.len() as int;
    lemma_parse_two_byte_padded(raw, off + 4, raw.len() as int, h.extensions, pads);
    let g = with_fixed_fields(target, raw);
    assert(HeaderModel { extension_profile: h.extension_profile, extensions: h.extensions, ..g }
        == h);
}

} // verus!
