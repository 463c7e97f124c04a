//! The wire format of a header as spec functions: the bytes that marshalling
//! writes, and what unmarshalling reads back from a byte sequence.

use vstd::prelude::*;

use super::model::{
    ext_bytes_len, lemma_marshal_size_bounds, profile_of, ExtensionModel, HeaderModel,
};
use super::ExtensionProfile;
use crate::endian::{be16, be16_at, be32, be32_at};
use crate::errors::RTPError;

verus! {

/// `p` written over the start of `o`: `p`, then what `o` holds after it.
pub open spec fn over(p: Seq<u8>, o: Seq<u8>) -> Seq<u8> {
    p + o.skip(p.len() as int)
}

/// `n` zero bytes.
pub open spec fn zeros(n: nat) -> Seq<u8> {
    Seq::new(n, |i: int| 0u8)
}

/// The first header byte: version, padding bit, extension bit and CSRC count.
pub open spec fn first_byte(h: HeaderModel) -> u8 {
    let b = (h.version << 6u8) | (h.csrc.len() as u8);
    let b = if h.padding {
        b | (1u8 << 5u8)
    } else {
        b
    };
    if h.extension {
        b | (1u8 << 4u8)
    } else {
        b
    }
}

/// The second header byte: marker bit and payload type.
pub open spec fn second_byte(h: HeaderModel) -> u8 {
    if h.marker {
        h.payload_type | (1u8 << 7u8)
    } else {
        h.payload_type
    }
}

/// The CSRC identifiers, each as four big-endian bytes.
pub open spec fn csrc_bytes(s: Seq<u32>) -> Seq<u8>
    decreases s.len(),
{
    if s.len() == 0 {
        seq![]
    } else {
        csrc_bytes(s.drop_last()) + be32(s.last())
    }
}

/// The fixed header and the CSRC list.
pub open spec fn fixed_bytes(h: HeaderModel) -> Seq<u8> {
    seq![first_byte(h), second_byte(h)] + be16(h.sequence_number) + be32(h.timestamp) + be32(h.ssrc)
        + csrc_bytes(h.csrc)
}

/// One RFC 8285 one-byte extension: id and length-minus-one in one byte,
/// then the payload.
pub open spec fn one_byte_item(e: ExtensionModel) -> Seq<u8> {
    seq![(e.id << 4u8) | ((e.payload.len() - 1) as u8)] + e.payload
}

/// One RFC 8285 two-byte extension: id byte, length byte, then the payload.
pub open spec fn two_byte_item(e: ExtensionModel) -> Seq<u8> {
    seq![e.id, e.payload.len() as u8] + e.payload
}

pub open spec fn one_byte_body(s: Seq<ExtensionModel>) -> Seq<u8>
    decreases s.len(),
{
    if s.len() == 0 {
        seq![]
    } else {
        one_byte_body(s.drop_last()) + one_byte_item(s.last())
    }
}

pub open spec fn two_byte_body(s: Seq<ExtensionModel>) -> Seq<u8>
    decreases s.len(),
{
    if s.len() == 0 {
        seq![]
    } else {
        two_byte_body(s.drop_last()) + two_byte_item(s.last())
    }
}

impl HeaderModel {
    /// The extension data, before padding.
    pub open spec fn ext_body(self) -> Seq<u8> {
        match self.profile() {
            ExtensionProfile::OneByte => one_byte_body(self.extensions),
            ExtensionProfile::TwoByte => two_byte_body(self.extensions),
            ExtensionProfile::Undefined => self.extensions[0].payload,
        }
    }

    /// The extension data length rounded up to whole 32-bit words.
    pub open spec fn padded_ext_len(self) -> int {
        ((self.extension_payload_len() + 3) / 4) * 4
    }

    /// The extension block: profile, length in words, data and zero padding.
    pub open spec fn ext_block(self) -> Seq<u8> {
        be16(self.extension_profile) + be16((self.padded_ext_len() / 4) as u16) + self.ext_body()
            + zeros((self.padded_ext_len() - self.extension_payload_len()) as nat)
    }

    /// The marshaled header.
    pub open spec fn marshal_bytes(self) -> Seq<u8> {
        fixed_bytes(self) + if self.extension {
            self.ext_block()
        } else {
            seq![]
        }
    }

    /// No one-byte extension has an empty payload (its length minus one is
    /// written).
    pub open spec fn one_byte_payloads_nonempty(self) -> bool {
        (self.extension && self.profile() == ExtensionProfile::OneByte) ==> forall|i: int|
            0 <= i < self.extensions.len() ==> #[trigger] self.extensions[i].payload.len() >= 1
    }

    /// Marshalling into a buffer of the marshaled size does not panic: the
    /// size is defined and no one-byte extension payload is empty.
    pub open spec fn marshal_requires(self) -> bool {
        &&& self.size_is_defined()
        &&& self.one_byte_payloads_nonempty()
    }

    /// Marshalling refuses an RFC 3550 extension whose payload is not a whole
    /// number of 32-bit words.
    pub open spec fn marshal_refused(self) -> bool {
        &&& self.extension
        &&& self.profile() == ExtensionProfile::Undefined
        &&& self.extensions[0].payload.len() % 4 != 0
    }
}

/// The extensions that one-byte parsing reads from `raw[off..]` up to `end`,
/// and the offset where it stops; `None` where an extension runs past the end
/// of `raw`.
pub open spec fn parse_one_byte(raw: Seq<u8>, off: int, end: int) -> Option<
    (Seq<ExtensionModel>, int),
>
    decreases (if off < end {
        end - off
    } else {
        0
    }),
{
    if off >= end {
        Some((seq![], off))
    } else if raw[off] == 0 {
        parse_one_byte(raw, off + 1, end)
    } else {
        let id = raw[off] >> 4u8;
        let len = (raw[off] & 0x0Fu8) + 1;
        if id == 0xF {
            Some((seq![], off + 1))
        } else if off + 1 + len > raw.len() {
            None
        } else {
            match parse_one_byte(raw, off + 1 + len, end) {
                Some((rest, o)) => Some(
                    (
                        seq![ExtensionModel { id, payload: raw.subrange(off + 1, off + 1 + len) }]
                            + rest,
                        o,
                    ),
                ),
                None => None,
            }
        }
    }
}

/// The extensions that two-byte parsing reads from `raw[off..]` up to `end`,
/// and the offset where it stops; `None` where an extension runs past the end
/// of `raw`.
pub open spec fn parse_two_byte(raw: Seq<u8>, off: int, end: int) -> Option<
    (Seq<ExtensionModel>, int),
>
    decreases (if off < end {
        end - off
    } else {
        0
    }),
{
    if off >= end {
        Some((seq![], off))
    } else if raw[off] == 0 {
        parse_two_byte(raw, off + 1, end)
    } else if off + 1 >= raw.len() {
        None
    } else {
        let id = raw[off];
        let len = raw[off + 1] as int;
        if off + 2 + len > raw.len() {
            None
        } else {
            match parse_two_byte(raw, off + 2 + len, end) {
                Some((rest, o)) => Some(
                    (
                        seq![ExtensionModel { id, payload: raw.subrange(off + 2, off + 2 + len) }]
                            + rest,
                        o,
                    ),
                ),
                None => None,
            }
        }
    }
}

/// The CSRC count of a first header byte.
pub open spec fn csrc_count(b: u8) -> int {
    (b & 0xFu8) as int
}

/// The header after its fields have been read from `raw`, before any
/// extension is read: version and flags from the first byte, CSRC count,
/// the other fixed fields and the CSRC list.
pub open spec fn with_fixed_fields(h: HeaderModel, raw: Seq<u8>) -> HeaderModel {
    let cc = csrc_count(raw[0]);
    HeaderModel {
        version: (raw[0] >> 6u8) & 0x3u8,
        padding: ((raw[0] >> 5u8) & 0x1u8) > 0,
        extension: ((raw[0] >> 4u8) & 0x1u8) > 0,
        marker: ((raw[1] >> 7u8) & 0x1u8) > 0,
        payload_type: raw[1] & 0x7Fu8,
        sequence_number: be16_at(raw, 2) as u16,
        timestamp: be32_at(raw, 4) as u32,
        ssrc: be32_at(raw, 8) as u32,
        csrc: Seq::new(cc as nat, |i: int| be32_at(raw, 12 + 4 * i) as u32),
        ..h
    }
}

/// The header when `raw` is too short for its CSRC list: only the first
/// byte's fields and a CSRC list of zeros have been set.
pub open spec fn with_first_byte(h: HeaderModel, raw: Seq<u8>) -> HeaderModel {
    let cc = csrc_count(raw[0]);
    HeaderModel {
        version: (raw[0] >> 6u8) & 0x3u8,
        padding: ((raw[0] >> 5u8) & 0x1u8) > 0,
        extension: ((raw[0] >> 4u8) & 0x1u8) > 0,
        csrc: Seq::new(cc as nat, |i: int| 0u32),
        ..h
    }
}

/// What unmarshalling `raw` into a header `h` leaves in the header and
/// returns; `None` where it would read past the end of `raw`. A successful
/// read replaces the old extensions by the ones read (none where the packet
/// has no extension block, in which case the old extension profile stays);
/// a failed read keeps them.
pub open spec fn unmarshal_spec(h: HeaderModel, raw: Seq<u8>) -> Option<
    (HeaderModel, Result<usize, RTPError>),
> {
    if raw.len() < 4 {
        Some((h, Err(RTPError::HeaderSizeInsufficient)))
    } else {
        let off = 12 + 4 * csrc_count(raw[0]);
        if raw.len() < off {
            Some((with_first_byte(h, raw), Err(RTPError::HeaderSizeInsufficient)))
        } else {
            let h2 = with_fixed_fields(h, raw);
            if !h2.extension {
                Some((HeaderModel { extensions: seq![], ..h2 }, Ok(off as usize)))
            } else if raw.len() < off + 4 {
                Some((h2, Err(RTPError::HeaderSizeInsufficientForExtension)))
            } else {
                let profile = be16_at(raw, off) as u16;
                let h3 = HeaderModel { extension_profile: profile, ..h2 };
                let body = off + 4;
                let end = body + be16_at(raw, off + 2) * 4;
                if raw.len() < end {
                    Some((h3, Err(RTPError::HeaderSizeInsufficientForExtension)))
                } else {
                    match h3.profile() {
                        ExtensionProfile::OneByte => match parse_one_byte(raw, body, end) {
                            Some((exts, o)) => Some(
                                (
                                    HeaderModel { extensions: exts, ..h3 },
                                    Ok(o as usize),
                                ),
                            ),
                            None => None,
                        },
                        ExtensionProfile::TwoByte => match parse_two_byte(raw, body, end) {
                            Some((exts, o)) => Some(
                                (
                                    HeaderModel { extensions: exts, ..h3 },
                                    Ok(o as usize),
                                ),
                            ),
                            None => None,
                        },
                        ExtensionProfile::Undefined => {
                            let exts = seq![
                                ExtensionModel { id: 0, payload: raw.subrange(body, end) },
                            ];
                            Some(
                                (
                                    HeaderModel { extensions: exts, ..h3 },
                                    Ok(end as usize),
                                ),
                            )
                        },
                    }
                }
            }
        }
    }
}

/// Unmarshalling `raw` reads only inside it: every RFC 8285 extension that
/// the header announces ends inside `raw`.
pub open spec fn unmarshal_in_bounds(raw: Seq<u8>) -> bool {
    let off = 12 + 4 * csrc_count(raw[0]);
    let body = off + 4;
    let end = body + be16_at(raw, off + 2) * 4;
    let profile = be16_at(raw, off) as u16;
    raw.len() >= off + 4 && ((raw[0] >> 4u8) & 0x1u8) > 0 && raw.len() >= end ==> match profile_of(
        profile,
    ) {
        ExtensionProfile::OneByte => parse_one_byte(raw, body, end) is Some,
        ExtensionProfile::TwoByte => parse_two_byte(raw, body, end) is Some,
        ExtensionProfile::Undefined => true,
    }
}

// Lemmas on bytes written over a buffer.

pub proof fn lemma_over_take(p: Seq<u8>, o: Seq<u8>, k: int)
    requires
        p.len() <= k <= o.len(),
    ensures
        over(p, o).take(k) =~= p + o.subrange(p.len() as int, k),
{
}

pub proof fn lemma_over_over(p: Seq<u8>, q: Seq<u8>, o: Seq<u8>)
    requires
        p.len() <= q.len() <= o.len(),
    ensures
        over(q, over(p, o)) =~= over(q, o),
{
}

pub proof fn lemma_over_push(p: Seq<u8>, o: Seq<u8>, b: u8)
    requires
        p.len() < o.len(),
    ensures
        over(p, o).update(p.len() as int, b) =~= over(p.push(b), o),
{
}

pub proof fn lemma_over_update(p: Seq<u8>, o: Seq<u8>, i: int, b: u8)
    requires
        0 <= i < p.len() <= o.len(),
    ensures
        over(p, o).update(i, b) =~= over(p.update(i, b), o),
{
}

pub proof fn lemma_over_put2(p: Seq<u8>, o: Seq<u8>, v: u16)
    requires
        p.len() + 2 <= o.len(),
    ensures
        over(p, o).update(p.len() as int, be16(v)[0]).update(p.len() as int + 1, be16(v)[1]) =~= over(
            p + be16(v),
            o,
        ),
{
}

pub proof fn lemma_over_put4(p: Seq<u8>, o: Seq<u8>, v: u32)
    requires
        p.len() + 4 <= o.len(),
    ensures
        over(p, o).update(p.len() as int, be32(v)[0]).update(p.len() as int + 1, be32(v)[1]).update(
            p.len() as int + 2,
            be32(v)[2],
        ).update(p.len() as int + 3, be32(v)[3]) =~= over(p + be32(v), o),
{
}

// Lemmas on the lengths and the shape of the marshaled bytes.

pub proof fn lemma_csrc_bytes_len(s: Seq<u32>)
    ensures
        csrc_bytes(s).len() == 4 * s.len(),
    decreases s.len(),
{
    if s.len() > 0 {
        lemma_csrc_bytes_len(s.drop_last());
    }
}

pub proof fn lemma_csrc_bytes_step(s: Seq<u32>, i: int)
    requires
        0 <= i < s.len(),
    ensures
        csrc_bytes(s.take(i + 1)) == csrc_bytes(s.take(i)) + be32(s[i]),
{
    assert(s.take(i + 1).drop_last() =~= s.take(i));
}

pub proof fn lemma_fixed_bytes_len(h: HeaderModel)
    ensures
        fixed_bytes(h).len() == 12 + 4 * h.csrc.len(),
{
    lemma_csrc_bytes_len(h.csrc);
}

pub proof fn lemma_one_byte_body_len(s: Seq<ExtensionModel>)
    ensures
        one_byte_body(s).len() == ext_bytes_len(s, 1),
    decreases s.len(),
{
    if s.len() > 0 {
        lemma_one_byte_body_len(s.drop_last());
    }
}

pub proof fn lemma_two_byte_body_len(s: Seq<ExtensionModel>)
    ensures
        two_byte_body(s).len() == ext_bytes_len(s, 2),
    decreases s.len(),
{
    if s.len() > 0 {
        lemma_two_byte_body_len(s.drop_last());
    }
}

pub proof fn lemma_one_byte_body_step(s: Seq<ExtensionModel>, i: int)
    requires
        0 <= i < s.len(),
    ensures
        one_byte_body(s.take(i + 1)) == one_byte_body(s.take(i)) + one_byte_item(s[i]),
{
    assert(s.take(i + 1).drop_last() =~= s.take(i));
}

pub proof fn lemma_two_byte_body_step(s: Seq<ExtensionModel>, i: int)
    requires
        0 <= i < s.len(),
    ensures
        two_byte_body(s.take(i + 1)) == two_byte_body(s.take(i)) + two_byte_item(s[i]),
{
    assert(s.take(i + 1).drop_last() =~= s.take(i));
}

/// The extension data has the length that the size computation counts.
pub proof fn lemma_ext_body_len(h: HeaderModel)
    ensures
        h.ext_body().len() == h.extension_payload_len(),
{
    lemma_one_byte_body_len(h.extensions);
    lemma_two_byte_body_len(h.extensions);
}

/// The marshaled bytes are as long as the marshaled size.
pub proof fn lemma_marshal_bytes_len(h: HeaderModel)
    ensures
        h.marshal_bytes().len() == h.marshal_size(),
{
    lemma_fixed_bytes_len(h);
    lemma_ext_body_len(h);
    lemma_marshal_size_bounds(h);
}

} // verus!
