//! Unmarshalling: reading a header from bytes.

use vstd::prelude::*;
use vstd::slice::{slice_subrange, slice_to_vec};

use super::model::{ext_models, lemma_ext_models_push, ExtensionModel, HeaderModel};
use super::wire::{parse_one_byte, parse_two_byte, unmarshal_in_bounds, unmarshal_spec};
use super::{
    Extension, ExtensionProfile, Header, CC_MASK, CSRC_LENGTH, CSRC_OFFSET, EXTENSION_ID_RESERVED,
    EXTENSION_MASK, EXTENSION_SHIFT, HEADER_LENGTH, MARKER_MASK, MARKER_SHIFT, PADDING_MASK,
    PADDING_SHIFT, PT_MASK, SEQ_NUM_OFFSET, SSRC_OFFSET, TIMESTAMP_OFFSET, VERSION_MASK,
    VERSION_SHIFT,
};
use crate::endian::{read_u16_at, read_u32_at};
use crate::errors::RTPError;

verus! {

/// Reads RFC 8285 one-byte extensions from `raw[start..end]` onto `exts`;
/// returns the offset where reading stopped.
fn unmarshal_one_byte(raw: &[u8], start: usize, end: usize, exts: &mut Vec<Extension>) -> (o: usize)
    requires
        end <= raw@.len(),
        parse_one_byte(raw@, start as int, end as int) is Some,
    ensures
        ({
            let (parsed, po) = parse_one_byte(raw@, start as int, end as int).unwrap();
            &&& o == po
            &&& ext_models(final(exts)@) == ext_models(old(exts)@) + parsed
        }),
{
    let ghost full = parse_one_byte(raw@, start as int, end as int);
    let ghost mut acc: Seq<ExtensionModel> = seq![];
    let mut current_offset = start;
    assert(ext_models(exts@) =~= ext_models(old(exts)@) + acc);
    while current_offset < end
        invariant
            end <= raw@.len(),
            full == parse_one_byte(raw@, start as int, end as int),
            full is Some,
            ext_models(exts@) == ext_models(old(exts)@) + acc,
            full == (match parse_one_byte(raw@, current_offset as int, end as int) {
                Some((r, o)) => Some((acc + r, o)),
                None => None,
            }),
        decreases (if current_offset < end { end - current_offset } else { 0 }),
    {
        let b = raw[current_offset];
        if b == 0x00 {
            // Padding
            current_offset += 1;
        } else {
            let ext_id = b >> 4;
            assert((b as usize & !0xF0usize) == (b & 0x0Fu8) as usize) by (bit_vector);
            let len = (b as usize & !0xF0) + 1;
            current_offset += 1;
            if ext_id == EXTENSION_ID_RESERVED {
                proof {
                    assert(acc + seq![] =~= acc);
                }
                return current_offset;
            }
            let ghost rest = parse_one_byte(raw@, (current_offset + len) as int, end as int);
            let payload = slice_to_vec(slice_subrange(raw, current_offset, current_offset + len));
            let ghost old_exts = exts@;
            let e = Extension { id: ext_id, payload };
            let ghost em = e@;
            exts.push(e);
            proof {
                lemma_ext_models_push(old_exts, e);
                let (r, o) = rest.unwrap();
                assert(acc.push(em) + r =~= acc + (seq![em] + r));
                acc = acc.push(em);
            }
            current_offset += len;
        }
    }
    proof {
        assert(acc + seq![] =~= acc);
    }
    current_offset
}

/// Reads RFC 8285 two-byte extensions from `raw[start..end]` onto `exts`;
/// returns the offset where reading stopped.
fn unmarshal_two_byte(raw: &[u8], start: usize, end: usize, exts: &mut Vec<Extension>) -> (o: usize)
    requires
        end <= raw@.len(),
        parse_two_byte(raw@, start as int, end as int) is Some,
    ensures
        ({
            let (parsed, po) = parse_two_byte(raw@, start as int, end as int).unwrap();
            &&& o == po
            &&& ext_models(final(exts)@) == ext_models(old(exts)@) + parsed
        }),
{
    let ghost full = parse_two_byte(raw@, start as int, end as int);
    let ghost mut acc: Seq<ExtensionModel> = seq![];
    let mut current_offset = start;
    assert(ext_models(exts@) =~= ext_models(old(exts)@) + acc);
    while current_offset < end
        invariant
            end <= raw@.len(),
            full == parse_two_byte(raw@, start as int, end as int),
            full is Some,
            ext_models(exts@) == ext_models(old(exts)@) + acc,
            full == (match parse_two_byte(raw@, current_offset as int, end as int) {
                Some((r, o)) => Some((acc + r, o)),
                None => None,
            }),
        decreases (if current_offset < end { end - current_offset } else { 0 }),
    {
        if raw[current_offset] == 0x00 {
            // Padding
            current_offset += 1;
        } else {
            let ext_id = raw[current_offset];
            current_offset += 1;
            let len = raw[current_offset];
            current_offset += 1;
            let ghost rest = parse_two_byte(raw@, (current_offset + len) as int, end as int);
            let payload = slice_to_vec(
                slice_subrange(raw, current_offset, current_offset + len as usize),
            );
            let ghost old_exts = exts@;
            let e = Extension { id: ext_id, payload };
            let ghost em = e@;
            exts.push(e);
            proof {
                lemma_ext_models_push(old_exts, e);
                let (r, o) = rest.unwrap();
                assert(acc.push(em) + r =~= acc + (seq![em] + r));
                acc = acc.push(em);
            }
            current_offset += len as usize;
        }
    }
    proof {
        assert(acc + seq![] =~= acc);
    }
    current_offset
}

/// Whether one-byte parsing of `raw[start..end]` stays inside `raw`.
fn one_byte_in_bounds(raw: &[u8], start: usize, end: usize) -> (b: bool)
    requires
        end <= raw@.len(),
    ensures
        b == parse_one_byte(raw@, start as int, end as int) is Some,
{
    let mut current_offset = start;
    while current_offset < end
        invariant
            end <= raw@.len(),
            (parse_one_byte(raw@, start as int, end as int) is Some) == (parse_one_byte(
                raw@,
                current_offset as int,
                end as int,
            ) is Some),
        decreases (if current_offset < end { end - current_offset } else { 0 }),
    {
        let b = raw[current_offset];
        if b == 0x00 {
            current_offset += 1;
        } else {
            let len = (b & 0x0F) as usize + 1;
            if b >> 4 == EXTENSION_ID_RESERVED {
                return true;
            }
            if len > raw.len() - (current_offset + 1) {
                return false;
            }
            current_offset = current_offset + 1 + len;
        }
    }
    true
}

/// Whether two-byte parsing of `raw[start..end]` stays inside `raw`.
fn two_byte_in_bounds(raw: &[u8], start: usize, end: usize) -> (b: bool)
    requires
        end <= raw@.len(),
    ensures
        b == parse_two_byte(raw@, start as int, end as int) is Some,
{
    let mut current_offset = start;
    while current_offset < end
        invariant
            end <= raw@.len(),
            (parse_two_byte(raw@, start as int, end as int) is Some) == (parse_two_byte(
                raw@,
                current_offset as int,
                end as int,
            ) is Some),
        decreases (if current_offset < end { end - current_offset } else { 0 }),
    {
        if raw[current_offset] == 0x00 {
            current_offset += 1;
        } else {
            if current_offset + 1 >= raw.len() {
                return false;
            }
            let len = raw[current_offset + 1] as usize;
            if len > raw.len() - (current_offset + 2) {
                return false;
            }
            current_offset = current_offset + 2 + len;
        }
    }
    true
}

impl Header {
    /// Whether unmarshalling `raw_packet` reads only inside it, that is,
    /// whether every RFC 8285 extension the packet announces ends inside it.
    pub fn unmarshal_reads_in_bounds(raw_packet: &[u8]) -> (b: bool)
        ensures
            b == unmarshal_in_bounds(raw_packet@),
    {
        if raw_packet.len() < CSRC_OFFSET + 4 {
            return true;
        }
        let current_offset = CSRC_OFFSET + ((raw_packet[0] & CC_MASK) as usize) * CSRC_LENGTH;
        if raw_packet.len() < current_offset + 4 {
            return true;
        }
        if (raw_packet[0] >> EXTENSION_SHIFT & EXTENSION_MASK) == 0 {
            return true;
        }
        let profile = read_u16_at(raw_packet, current_offset);
        let extension_length = (read_u16_at(raw_packet, current_offset + 2) as usize) * 4;
        let start = current_offset + 4;
        if raw_packet.len() < start + extension_length {
            return true;
        }
        let end = start + extension_length;
        match ExtensionProfile::from(profile) {
            ExtensionProfile::OneByte => one_byte_in_bounds(raw_packet, start, end),
            ExtensionProfile::TwoByte => two_byte_in_bounds(raw_packet, start, end),
            _ => true,
        }
    }

    /// Unmarshal parses the passed byte slice and stores the result in the Header this method is called upon
    pub fn unmarshal(&mut self, raw_packet: &[u8]) -> (r: Result<usize, RTPError>)
        requires
            unmarshal_in_bounds(raw_packet@),
        ensures
            unmarshal_spec(old(self)@, raw_packet@) == Some((final(self)@, r)),
    {
        let ghost h = self@;
        let ghost raw = raw_packet@;
        if raw_packet.len() < HEADER_LENGTH {
            return Err(RTPError::HeaderSizeInsufficient);
        }
        self.version = raw_packet[0] >> VERSION_SHIFT & VERSION_MASK;
        self.padding = (raw_packet[0] >> PADDING_SHIFT & PADDING_MASK) > 0;
        self.extension = (raw_packet[0] >> EXTENSION_SHIFT & EXTENSION_MASK) > 0;
        self.csrc = vec![0u32; (raw_packet[0] & CC_MASK) as usize];

        let mut current_offset = CSRC_OFFSET + (self.csrc.len() * CSRC_LENGTH);
        if raw_packet.len() < current_offset {
            proof {
                assert(self@ =~~= super::wire::with_first_byte(h, raw));
            }
            return Err(RTPError::HeaderSizeInsufficient);
        }
        self.marker = (raw_packet[1] >> MARKER_SHIFT & MARKER_MASK) > 0;
        self.payload_type = raw_packet[1] & PT_MASK;

        self.sequence_number = read_u16_at(raw_packet, SEQ_NUM_OFFSET);
        self.timestamp = read_u32_at(raw_packet, TIMESTAMP_OFFSET);
        self.ssrc = read_u32_at(raw_packet, SSRC_OFFSET);

        let ghost h2 = super::wire::with_fixed_fields(h, raw);
        let cc = self.csrc.len();
        let mut i: usize = 0;
        while i < cc
            invariant
                cc == self.csrc.len(),
                current_offset == CSRC_OFFSET + cc * CSRC_LENGTH,
                current_offset <= raw_packet@.len(),
                i <= cc,
                self@ == (HeaderModel { csrc: self.csrc@, ..h2 }),
                forall|j: int|
                    0 <= j < i ==> self.csrc@[j] == crate::endian::be32_at(
                        raw_packet@,
                        12 + 4 * j,
                    ) as u32,
            decreases cc - i,
        {
            let offset = CSRC_OFFSET + (i * CSRC_LENGTH);
            self.csrc[i] = read_u32_at(raw_packet, offset);
            i += 1;
        }
        proof {
            assert(self.csrc@ =~= h2.csrc);
            assert(self@ =~~= h2);
        }
        if self.extension {
            if raw_packet.len() < current_offset + 4 {
                return Err(RTPError::HeaderSizeInsufficientForExtension);
            }
            self.extension_profile = read_u16_at(raw_packet, current_offset);
            current_offset += 2;

            let extension_length = (read_u16_at(raw_packet, current_offset) as usize) * 4;
            current_offset += 2;

            if raw_packet.len() < current_offset + extension_length {
                return Err(RTPError::HeaderSizeInsufficientForExtension);
            }
            // The extensions read replace any held before.
            self.extensions.clear();
            let ghost h3 = HeaderModel {
                extension_profile: self.extension_profile,
                extensions: seq![],
                ..h2
            };
            assert(self@ =~~= h3);
            match ExtensionProfile::from(self.extension_profile) {
                // RFC 8285 RTP One Byte Header Extension
                ExtensionProfile::OneByte => {
                    let end = current_offset + extension_length;
                    current_offset = unmarshal_one_byte(
                        raw_packet,
                        current_offset,
                        end,
                        &mut self.extensions,
                    );
                },
                // RFC 8285 RTP Two Byte Header Extension
                ExtensionProfile::TwoByte => {
                    let end = current_offset + extension_length;
                    current_offset = unmarshal_two_byte(
                        raw_packet,
                        current_offset,
                        end,
                        &mut self.extensions,
                    );
                },
                // RFC3550 Extension
                _ => {
                    if raw_packet.len() < current_offset + extension_length {
                        return Err(RTPError::HeaderSizeInsufficientForExtension);
                    }
                    let payload = slice_to_vec(
                        slice_subrange(raw_packet, current_offset, current_offset + extension_length),
                    );
                    let ghost old_exts = self.extensions@;
                    let e = Extension { id: 0, payload };
                    self.extensions.push(e);
                    proof {
                        lemma_ext_models_push(old_exts, e);
                    }
                    current_offset += self.extensions[0].payload.len();
                },
            }
            proof {
                assert(self@.extensions =~~= ext_models(self.extensions@));
            }
        } else {
            // A packet without an extension block leaves no extensions.
            self.extensions.clear();
            assert(self@ =~~= HeaderModel { extensions: seq![], ..h2 });
        }
        Ok(current_offset)
    }
}

} // verus!
