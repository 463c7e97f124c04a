//! Unmarshalling what marshalling wrote gives the header back.

use vstd::prelude::*;

use super::model::{lemma_marshal_size_bounds, ExtensionModel, HeaderModel};
use super::wire::{
    csrc_bytes, csrc_count, first_byte, fixed_bytes, lemma_csrc_bytes_len, lemma_ext_body_len,
    lemma_fixed_bytes_len, lemma_marshal_bytes_len, lemma_one_byte_body_len,
    lemma_two_byte_body_len, one_byte_body, one_byte_item, parse_one_byte, parse_two_byte,
    second_byte, two_byte_body, two_byte_item, unmarshal_in_bounds, unmarshal_spec,
    with_fixed_fields,
};
use super::ExtensionProfile;
use crate::endian::{be16, be16_at, be32, be32_at};
use crate::errors::RTPError;

verus! {

impl HeaderModel {
    /// The header can be written on the wire and read back: each field fits
    /// the bits it is given, the extension length fits its 16-bit field, each
    /// extension fits its profile's encoding (one-byte ids 1..=14 with 1 to 16
    /// bytes, two-byte ids from 1 with up to 255 bytes, or a single RFC 3550
    /// extension of id 0 made of whole 32-bit words), and there are no
    /// extensions while the extension bit is clear.
    pub open spec fn fits_wire_format(self) -> bool {
        &&& self.marshal_requires()
        &&& self.version < 4
        &&& self.payload_type < 128
        &&& self.csrc.len() < 16
        &&& !self.extension ==> self.extensions.len() == 0
        &&& self.extension ==> {
            &&& self.padded_ext_len() / 4 <= 0xFFFF
            &&& match self.profile() {
                ExtensionProfile::OneByte => forall|i: int|
                    0 <= i < self.extensions.len() ==> {
                        &&& 1 <= #[trigger] self.extensions[i].id <= 14
                        &&& 1 <= self.extensions[i].payload.len() <= 16
                    },
                ExtensionProfile::TwoByte => forall|i: int|
                    0 <= i < self.extensions.len() ==> {
                        &&& 1 <= #[trigger] self.extensions[i].id
                        &&& self.extensions[i].payload.len() <= 255
                    },
                ExtensionProfile::Undefined => {
                    &&& self.extensions.len() == 1
                    &&& self.extensions[0].id == 0
                    &&& self.extensions[0].payload.len() % 4 == 0
                },
            }
        }
    }
}

pub(crate) proof fn lemma_be16_value(v: u16)
    ensures
        be16(v).len() == 2,
        be16(v)[0] * 0x100 + be16(v)[1] == v,
{
}

proof fn lemma_be32_value(v: u32)
    ensures
        be32(v).len() == 4,
        be32(v)[0] * 0x100_0000 + be32(v)[1] * 0x1_0000 + be32(v)[2] * 0x100 + be32(v)[3] == v,
{
}

proof fn lemma_first_byte_bits(v: u8, cc: u8, p: bool, x: bool)
    requires
        v < 4,
        cc < 16,
    ensures
        ({
            let b0 = (v << 6u8) | cc;
            let b1 = if p {
                b0 | (1u8 << 5u8)
            } else {
                b0
            };
            let b = if x {
                b1 | (1u8 << 4u8)
            } else {
                b1
            };
            &&& (b >> 6u8) & 0x3u8 == v
            &&& (((b >> 5u8) & 0x1u8) > 0) == p
            &&& (((b >> 4u8) & 0x1u8) > 0) == x
            &&& b & 0xFu8 == cc
        }),
{
    assert({
        let b0 = (v << 6u8) | cc;
        let b1 = if p {
            b0 | (1u8 << 5u8)
        } else {
            b0
        };
        let b = if x {
            b1 | (1u8 << 4u8)
        } else {
            b1
        };
        &&& (b >> 6u8) & 0x3u8 == v
        &&& (((b >> 5u8) & 0x1u8) > 0) == p
        &&& (((b >> 4u8) & 0x1u8) > 0) == x
        &&& b & 0xFu8 == cc
    }) by (bit_vector)
        requires
            v < 4,
            cc < 16,
    ;
}

proof fn lemma_second_byte_bits(pt: u8, m: bool)
    requires
        pt < 128,
    ensures
        ({
            let b = if m {
                pt | (1u8 << 7u8)
            } else {
                pt
            };
            &&& (((b >> 7u8) & 0x1u8) > 0) == m
            &&& b & 0x7Fu8 == pt
        }),
{
    assert({
        let b = if m {
            pt | (1u8 << 7u8)
        } else {
            pt
        };
        &&& (((b >> 7u8) & 0x1u8) > 0) == m
        &&& b & 0x7Fu8 == pt
    }) by (bit_vector)
        requires
            pt < 128,
    ;
}

pub(crate) proof fn lemma_one_byte_header_bits(id: u8, n: u8)
    requires
        1 <= id <= 14,
        n <= 15,
    ensures
        ({
            let b = (id << 4u8) | n;
            &&& b != 0
            &&& b >> 4u8 == id
            &&& b & 0x0Fu8 == n
        }),
{
    assert({
        let b = (id << 4u8) | n;
        &&& b != 0
        &&& b >> 4u8 == id
        &&& b & 0x0Fu8 == n
    }) by (bit_vector)
        requires
            1 <= id <= 14,
            n <= 15,
    ;
}

proof fn lemma_csrc_bytes_index(s: Seq<u32>, i: int, j: int)
    requires
        0 <= i < s.len(),
        0 <= j < 4,
    ensures
        csrc_bytes(s)[4 * i + j] == be32(s[i])[j],
    decreases s.len(),
{
    lemma_csrc_bytes_len(s.drop_last());
    if i < s.len() - 1 {
        lemma_csrc_bytes_index(s.drop_last(), i, j);
    }
}

/// Reading the fixed fields back from marshaled bytes gives the header's
/// fixed fields and CSRC list.
pub(crate) proof fn lemma_fixed_fields_roundtrip(h: HeaderModel, target: HeaderModel, rest: Seq<u8>)
    requires
        h.version < 4,
        h.payload_type < 128,
        h.csrc.len() < 16,
    ensures
        ({
            let raw = fixed_bytes(h) + rest;
            &&& raw[0] == first_byte(h)
            &&& csrc_count(raw[0]) == h.csrc.len()
            &&& with_fixed_fields(target, raw) == (HeaderModel {
                extension_profile: target.extension_profile,
                extensions: target.extensions,
                ..h
            })
        }),
{
    let raw = fixed_bytes(h) + rest;
    let f = fixed_bytes(h);
    lemma_fixed_bytes_len(h);
    lemma_csrc_bytes_len(h.csrc);
    let cc = h.csrc.len();
    assert(cc as u8 == cc);
    lemma_first_byte_bits(h.version, cc as u8, h.padding, h.extension);
    lemma_second_byte_bits(h.payload_type, h.marker);
    lemma_be16_value(h.sequence_number);
    lemma_be32_value(h.timestamp);
    lemma_be32_value(h.ssrc);
    assert(raw[0] == first_byte(h));
    assert(raw[1] == second_byte(h));
    assert(be16_at(raw, 2) == h.sequence_number);
    assert(be32_at(raw, 4) == h.timestamp);
    assert(be32_at(raw, 8) == h.ssrc);
    let g = with_fixed_fields(target, raw);
    assert forall|i: int| 0 <= i < cc implies g.csrc[i] == h.csrc[i] by {
        lemma_csrc_bytes_index(h.csrc, i, 0);
        lemma_csrc_bytes_index(h.csrc, i, 1);
        lemma_csrc_bytes_index(h.csrc, i, 2);
        lemma_csrc_bytes_index(h.csrc, i, 3);
        lemma_be32_value(h.csrc[i]);
        assert(raw[12 + 4 * i] == f[12 + 4 * i]);
        assert(raw[12 + 4 * i + 1] == f[12 + 4 * i + 1]);
        assert(raw[12 + 4 * i + 2] == f[12 + 4 * i + 2]);
        assert(raw[12 + 4 * i + 3] == f[12 + 4 * i + 3]);
    }
    assert(g.csrc =~= h.csrc);
    assert(g =~~= HeaderModel {
        extension_profile: target.extension_profile,
        extensions: target.extensions,
        ..h
    });
}

proof fn lemma_one_byte_body_first(s: Seq<ExtensionModel>)
    requires
        s.len() > 0,
    ensures
        one_byte_body(s) == one_byte_item(s[0]) + one_byte_body(s.drop_first()),
    decreases s.len(),
{
    if s.len() > 1 {
        lemma_one_byte_body_first(s.drop_last());
        assert(s.drop_last().drop_first() =~= s.drop_first().drop_last());
        assert(one_byte_body(s) =~= one_byte_item(s[0]) + one_byte_body(s.drop_first()));
    } else {
        assert(s.drop_last() =~= s.drop_first());
        assert(one_byte_body(s) =~= one_byte_item(s[0]) + one_byte_body(s.drop_first()));
    }
}

proof fn lemma_two_byte_body_first(s: Seq<ExtensionModel>)
    requires
        s.len() > 0,
    ensures
        two_byte_body(s) == two_byte_item(s[0]) + two_byte_body(s.drop_first()),
    decreases s.len(),
{
    if s.len() > 1 {
        lemma_two_byte_body_first(s.drop_last());
        assert(s.drop_last().drop_first() =~= s.drop_first().drop_last());
        assert(two_byte_body(s) =~= two_byte_item(s[0]) + two_byte_body(s.drop_first()));
    } else {
        assert(s.drop_last() =~= s.drop_first());
        assert(two_byte_body(s) =~= two_byte_item(s[0]) + two_byte_body(s.drop_first()));
    }
}

/// One-byte parsing skips zero padding up to the end.
proof fn lemma_parse_one_byte_zeros(raw: Seq<u8>, off: int, end: int)
    requires
        0 <= off <= end <= raw.len(),
        forall|j: int| off <= j < end ==> raw[j] == 0,
    ensures
        parse_one_byte(raw, off, end) == Some((Seq::<ExtensionModel>::empty(), end)),
    decreases end - off,
{
    if off < end {
        lemma_parse_one_byte_zeros(raw, off + 1, end);
    }
}

/// Two-byte parsing skips zero padding up to the end.
proof fn lemma_parse_two_byte_zeros(raw: Seq<u8>, off: int, end: int)
    requires
        0 <= off <= end <= raw.len(),
        forall|j: int| off <= j < end ==> raw[j] == 0,
    ensures
        parse_two_byte(raw, off, end) == Some((Seq::<ExtensionModel>::empty(), end)),
    decreases end - off,
{
    if off < end {
        lemma_parse_two_byte_zeros(raw, off + 1, end);
    }
}

/// One-byte parsing reads back the extensions that were written, then the
/// padding.
proof fn lemma_parse_one_byte_body(raw: Seq<u8>, off: int, end: int, s: Seq<ExtensionModel>)
    requires
        forall|i: int|
            0 <= i < s.len() ==> {
                &&& 1 <= #[trigger] s[i].id <= 14
                &&& 1 <= s[i].payload.len() <= 16
            },
        0 <= off,
        off + one_byte_body(s).len() <= end <= raw.len(),
        raw.subrange(off, off + one_byte_body(s).len()) == one_byte_body(s),
        forall|j: int| off + one_byte_body(s).len() <= j < end ==> raw[j] == 0,
    ensures
        parse_one_byte(raw, off, end) == Some((s, end)),
    decreases s.len(),
{
    let body = one_byte_body(s);
    if s.len() == 0 {
        lemma_parse_one_byte_zeros(raw, off, end);
        assert(s =~= Seq::<ExtensionModel>::empty());
    } else {
        let e = s[0];
        let rest = s.drop_first();
        lemma_one_byte_body_first(s);
        lemma_one_byte_body_len(rest);
        let item = one_byte_item(e);
        let n = (e.payload.len() - 1) as u8;
        assert(n == e.payload.len() - 1);
        lemma_one_byte_header_bits(e.id, n);
        assert(raw[off] == body[0]);
        assert(body[0] == item[0]);
        let off2 = off + 1 + e.payload.len();
        assert(raw.subrange(off + 1, off2) =~= e.payload) by {
            assert forall|k: int| 0 <= k < e.payload.len() implies raw.subrange(off + 1, off2)[k]
                == e.payload[k] by {
                assert(raw[off + 1 + k] == body[1 + k]);
                assert(body[1 + k] == item[1 + k]);
            }
        }
        assert(raw.subrange(off2, off2 + one_byte_body(rest).len()) =~= one_byte_body(rest)) by {
            assert forall|k: int| 0 <= k < one_byte_body(rest).len() implies raw.subrange(
                off2,
                off2 + one_byte_body(rest).len(),
            )[k] == one_byte_body(rest)[k] by {
                assert(raw[off2 + k] == body[item.len() + k]);
            }
        }
        lemma_parse_one_byte_body(raw, off2, end, rest);
        assert(seq![ExtensionModel { id: e.id, payload: e.payload }] + rest =~= s);
    }
}

/// Two-byte parsing reads back the extensions that were written, then the
/// padding.
proof fn lemma_parse_two_byte_body(raw: Seq<u8>, off: int, end: int, s: Seq<ExtensionModel>)
    requires
        forall|i: int|
            0 <= i < s.len() ==> {
                &&& 1 <= #[trigger] s[i].id
                &&& s[i].payload.len() <= 255
            },
        0 <= off,
        off + two_byte_body(s).len() <= end <= raw.len(),
        raw.subrange(off, off + two_byte_body(s).len()) == two_byte_body(s),
        forall|j: int| off + two_byte_body(s).len() <= j < end ==> raw[j] == 0,
    ensures
        parse_two_byte(raw, off, end) == Some((s, end)),
    decreases s.len(),
{
    let body = two_byte_body(s);
    if s.len() == 0 {
        lemma_parse_two_byte_zeros(raw, off, end);
        assert(s =~= Seq::<ExtensionModel>::empty());
    } else {
        let e = s[0];
        let rest = s.drop_first();
        lemma_two_byte_body_first(s);
        lemma_two_byte_body_len(rest);
        let item = two_byte_item(e);
        assert(raw[off] == body[0]);
        assert(body[0] == item[0]);
        assert(raw[off + 1] == body[1]);
        assert(body[1] == item[1]);
        assert((e.payload.len() as u8) == e.payload.len());
        let off2 = off + 2 + e.payload.len();
        assert(raw.subrange(off + 2, off2) =~= e.payload) by {
            assert forall|k: int| 0 <= k < e.payload.len() implies raw.subrange(off + 2, off2)[k]
                == e.payload[k] by {
                assert(raw[off + 2 + k] == body[2 + k]);
                assert(body[2 + k] == item[2 + k]);
            }
        }
        assert(raw.subrange(off2, off2 + two_byte_body(rest).len()) =~= two_byte_body(rest)) by {
            assert forall|k: int| 0 <= k < two_byte_body(rest).len() implies raw.subrange(
                off2,
                off2 + two_byte_body(rest).len(),
            )[k] == two_byte_body(rest)[k] by {
                assert(raw[off2 + k] == body[item.len() + k]);
            }
        }
        lemma_parse_two_byte_body(raw, off2, end, rest);
        assert(seq![ExtensionModel { id: e.id, payload: e.payload }] + rest =~= s);
    }
}

/// Unmarshalling the bytes that marshalling writes, into any header, gives
/// back the marshaled header and consumes exactly the marshaled size. The
/// target's extension profile stays where the extension bit is clear, so it
/// is taken equal to the header's there.
pub proof fn lemma_unmarshal_marshal(h: HeaderModel, target: HeaderModel)
    requires
        h.fits_wire_format(),
        !h.extension ==> target.extension_profile == h.extension_profile,
    ensures
        unmarshal_in_bounds(h.marshal_bytes()),
        unmarshal_spec(target, h.marshal_bytes()) == Some(
            (h, Ok::<usize, RTPError>(h.marshal_size() as usize)),
        ),
{
    let raw = h.marshal_bytes();
    let f = fixed_bytes(h);
    let rest = if h.extension {
        h.ext_block()
    } else {
        seq![]
    };
    assert(raw == f + rest);
    lemma_fixed_fields_roundtrip(h, target, rest);
    lemma_marshal_bytes_len(h);
    lemma_marshal_size_bounds(h);
    lemma_fixed_bytes_len(h);
    let off = f.len() as int;
    let h2 = with_fixed_fields(target, raw);
    if !h.extension {
        assert(HeaderModel { extensions: seq![], ..h2 } =~~= h);
    } else {
        let prof = h.extension_profile;
        let padded = h.padded_ext_len();
        let l = h.extension_payload_len();
        let w = (padded / 4) as u16;
        let body = h.ext_body();
        lemma_ext_body_len(h);
        lemma_be16_value(prof);
        lemma_be16_value(w);
        assert(w == padded / 4);
        assert(padded == w * 4);
        let block = h.ext_block();
        assert(raw[off] == block[0]);
        assert(raw[off + 1] == block[1]);
        assert(raw[off + 2] == block[2]);
        assert(raw[off + 3] == block[3]);
        assert(be16_at(raw, off) == prof);
        assert(be16_at(raw, off + 2) == w);
        let start = off + 4;
        let end = start + padded;
        assert(end == raw.len());
        assert(raw.subrange(start, start + l) =~= body) by {
            assert forall|k: int| 0 <= k < l implies raw.subrange(start, start + l)[k]
                == body[k] by {
                assert(raw[start + k] == block[4 + k]);
            }
        }
        assert forall|j: int| start + l <= j < end implies raw[j] == 0 by {
            assert(raw[j] == block[j - off]);
        }
        let h3 = HeaderModel { extension_profile: prof, ..h2 };
        assert(h3.profile() == h.profile());
        match h.profile() {
            ExtensionProfile::OneByte => {
                lemma_one_byte_body_len(h.extensions);
                lemma_parse_one_byte_body(raw, start, end, h.extensions);
                assert(HeaderModel { extensions: h.extensions, ..h3 } =~~= h);
            },
            ExtensionProfile::TwoByte => {
                lemma_two_byte_body_len(h.extensions);
                lemma_parse_two_byte_body(raw, start, end, h.extensions);
                assert(HeaderModel { extensions: h.extensions, ..h3 } =~~= h);
            },
            ExtensionProfile::Undefined => {
                assert(padded == l);
                let exts = seq![ExtensionModel { id: 0, payload: raw.subrange(start, end) }];
                assert(exts =~~= h.extensions);
                assert(HeaderModel { extensions: exts, ..h3 } =~~= h);
            },
        }
    }
}

proof fn lemma_be16_of_bytes(a: u8, b: u8)
    ensures
        be16((a * 0x100 + b) as u16) == seq![a, b],
{
    let v = (a * 0x100 + b) as u16;
    assert(v == a * 0x100 + b);
    assert(v / 0x100 == a);
    assert(v % 0x100 == b);
    assert(be16(v) =~= seq![a, b]);
}

proof fn lemma_be32_of_bytes(a: u8, b: u8, c: u8, d: u8)
    ensures
        be32((a * 0x100_0000 + b * 0x1_0000 + c * 0x100 + d) as u32) == seq![a, b, c, d],
{
    let v = (a * 0x100_0000 + b * 0x1_0000 + c * 0x100 + d) as u32;
    assert(v == a * 0x100_0000 + b * 0x1_0000 + c * 0x100 + d);
    assert(v / 0x100_0000 == a && (v / 0x1_0000) % 0x100 == b && (v / 0x100) % 0x100 == c && v
        % 0x100 == d) by (bit_vector)
        requires
            v == a * 0x100_0000 + b * 0x1_0000 + c * 0x100 + d,
    ;
    assert(be32(v) =~= seq![a, b, c, d]);
}

proof fn lemma_first_byte_of_bits(b: u8)
    requires
        (b >> 4u8) & 0x1u8 == 0,
    ensures
        ({
            let v = (b >> 6u8) & 0x3u8;
            let cc = b & 0xFu8;
            let b0 = (v << 6u8) | cc;
            let b1 = if ((b >> 5u8) & 0x1u8) > 0 {
                b0 | (1u8 << 5u8)
            } else {
                b0
            };
            b1 == b
        }),
{
    assert({
        let v = (b >> 6u8) & 0x3u8;
        let cc = b & 0xFu8;
        let b0 = (v << 6u8) | cc;
        let b1 = if ((b >> 5u8) & 0x1u8) > 0 {
            b0 | (1u8 << 5u8)
        } else {
            b0
        };
        b1 == b
    }) by (bit_vector)
        requires
            (b >> 4u8) & 0x1u8 == 0,
    ;
}

proof fn lemma_second_byte_of_bits(b: u8)
    ensures
        (if ((b >> 7u8) & 0x1u8) > 0 {
            (b & 0x7Fu8) | (1u8 << 7u8)
        } else {
            b & 0x7Fu8
        }) == b,
{
    assert((if ((b >> 7u8) & 0x1u8) > 0 {
        (b & 0x7Fu8) | (1u8 << 7u8)
    } else {
        b & 0x7Fu8
    }) == b) by (bit_vector);
}

/// Marshalling the header read from a packet without an extension block,
/// whose length is that of its fixed header and CSRC list, gives back the
/// packet byte for byte, whatever the header held before.
pub proof fn lemma_marshal_unmarshal_no_extension(target: HeaderModel, raw: Seq<u8>)
    requires
        raw.len() >= 12,
        raw.len() == 12 + 4 * csrc_count(raw[0]),
        (raw[0] >> 4u8) & 0x1u8 == 0,
    ensures
        unmarshal_in_bounds(raw),
        unmarshal_spec(target, raw) matches Some((h, Ok(n))) && {
            &&& n == raw.len()
            &&& h.marshal_requires()
            &&& h.marshal_bytes() == raw
        },
{
    let h = HeaderModel { extensions: seq![], ..with_fixed_fields(target, raw) };
    let cc = csrc_count(raw[0]);
    lemma_fixed_bytes_len(h);
    lemma_first_byte_of_bits(raw[0]);
    lemma_second_byte_of_bits(raw[1]);
    assert((h.csrc.len() as u8) == raw[0] & 0xFu8);
    assert(first_byte(h) == raw[0]);
    assert(second_byte(h) == raw[1]);
    lemma_be16_of_bytes(raw[2], raw[3]);
    lemma_be32_of_bytes(raw[4], raw[5], raw[6], raw[7]);
    lemma_be32_of_bytes(raw[8], raw[9], raw[10], raw[11]);
    let f = fixed_bytes(h);
    assert forall|k: int| 0 <= k < raw.len() implies f[k] == raw[k] by {
        if k >= 12 {
            let i = (k - 12) / 4;
            let j = (k - 12) % 4;
            assert(k == 12 + 4 * i + j);
            lemma_csrc_bytes_index(h.csrc, i, j);
            lemma_be32_of_bytes(
                raw[12 + 4 * i],
                raw[12 + 4 * i + 1],
                raw[12 + 4 * i + 2],
                raw[12 + 4 * i + 3],
            );
            assert(f[k] == csrc_bytes(h.csrc)[4 * i + j]);
        }
    }
    assert(f =~= raw);
    assert(h.marshal_bytes() =~= raw);
    lemma_marshal_size_bounds(h);
}

} // verus!
