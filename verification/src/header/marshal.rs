//! Marshalling: writing a header into bytes.

use vstd::prelude::*;

use super::model::{
    lemma_marshal_size_bounds, ext_bytes_len, lemma_ext_bytes_len_nonneg, lemma_ext_bytes_len_prefix, lemma_ext_bytes_len_step,
};
use super::wire::{
    fixed_bytes, lemma_csrc_bytes_len, lemma_csrc_bytes_step, lemma_ext_body_len,
    lemma_fixed_bytes_len, lemma_marshal_bytes_len, lemma_one_byte_body_len,
    lemma_one_byte_body_step, lemma_over_over, lemma_over_push, lemma_over_put2,
    lemma_over_put4, lemma_over_take, lemma_over_update, lemma_two_byte_body_len,
    lemma_two_byte_body_step, one_byte_body, over, two_byte_body,
    zeros, csrc_bytes,
};
use super::{
    ExtensionProfile, Header, CSRC_OFFSET, EXTENSION_SHIFT, MARKER_SHIFT, PADDING_SHIFT,
    VERSION_SHIFT,
};
use crate::endian::{be16, be32, write_u16_at, write_u32_at};
use crate::errors::RTPError;

verus! {

/// Copies `src` into `buf` at `pos`.
fn copy_into(buf: &mut [u8], pos: usize, src: &[u8])
    requires
        pos + src@.len() <= old(buf)@.len(),
    ensures
        final(buf)@ == over(old(buf)@.take(pos as int) + src@, old(buf)@),
{
    let ghost o = buf@;
    let buf_len = buf.len();
    let mut j: usize = 0;
    while j < src.len()
        invariant
            pos + src@.len() <= o.len(),
            j <= src@.len(),
            buf@.len() == o.len(),
            o.len() == buf_len,
            buf@ == over(o.take(pos as int) + src@.take(j as int), o),
        decreases src@.len() - j,
    {
        proof {
            lemma_over_push(o.take(pos as int) + src@.take(j as int), o, src@[j as int]);
            assert(o.take(pos as int) + src@.take(j + 1) =~= (o.take(pos as int) + src@.take(
                j as int,
            )).push(src@[j as int]));
        }
        buf[pos + j] = src[j];
        j += 1;
    }
    assert(src@.take(j as int) =~= src@);
}

impl Header {
    /// Writes the fixed header and the CSRC list at the start of `buf`.
    fn write_fixed(&self, buf: &mut [u8]) -> (n: usize)
        requires
            12 + 4 * self.csrc.len() <= old(buf)@.len(),
        ensures
            n == 12 + 4 * self.csrc.len(),
            final(buf)@ == over(fixed_bytes(self@), old(buf)@),
    {
        let ghost o = buf@;
        let ghost h = self@;
        // The first byte contains the version, padding bit, extension bit, and csrc size
        buf[0] = (self.version << VERSION_SHIFT) | #[verifier::truncate] (self.csrc.len() as u8);
        if self.padding {
            buf[0] = buf[0] | (1 << PADDING_SHIFT);
        }
        if self.extension {
            buf[0] = buf[0] | (1 << EXTENSION_SHIFT);
        }
        // The second byte contains the marker bit and payload type.
        buf[1] = self.payload_type;
        if self.marker {
            buf[1] = buf[1] | (1 << MARKER_SHIFT);
        }
        let ghost p0 = seq![super::wire::first_byte(h), super::wire::second_byte(h)];
        assert(buf@ =~= over(p0, o));
        proof {
            lemma_over_put2(p0, o, self.sequence_number);
        }
        write_u16_at(buf, 2, self.sequence_number);
        let ghost p1 = p0 + be16(self.sequence_number);
        proof {
            lemma_over_put4(p1, o, self.timestamp);
        }
        write_u32_at(buf, 4, self.timestamp);
        let ghost p2 = p1 + be32(self.timestamp);
        proof {
            lemma_over_put4(p2, o, self.ssrc);
        }
        write_u32_at(buf, 8, self.ssrc);
        let ghost p3 = p2 + be32(self.ssrc);

        let buf_len = buf.len();
        let mut no_alloc: usize = CSRC_OFFSET;
        let mut i: usize = 0;
        assert(self@.csrc.take(0) =~= Seq::<u32>::empty());
        while i < self.csrc.len()
            invariant
                12 + 4 * self.csrc.len() <= o.len(),
                o.len() == buf@.len(),
                o.len() == buf_len,
                i <= self.csrc.len(),
                no_alloc == 12 + 4 * i,
                p3.len() == 12,
                p3 + csrc_bytes(self@.csrc) == fixed_bytes(h),
                h == self@,
                buf@ == over(p3 + csrc_bytes(self@.csrc.take(i as int)), o),
            decreases self.csrc.len() - i,
        {
            proof {
                lemma_csrc_bytes_len(self@.csrc.take(i as int));
                lemma_csrc_bytes_step(self@.csrc, i as int);
                lemma_over_put4(p3 + csrc_bytes(self@.csrc.take(i as int)), o, self.csrc[i as int]);
                assert(p3 + csrc_bytes(self@.csrc.take(i + 1)) =~= p3 + csrc_bytes(
                    self@.csrc.take(i as int),
                ) + be32(self.csrc[i as int]));
            }
            write_u32_at(buf, no_alloc, self.csrc[i]);
            no_alloc += 4;
            i += 1;
        }
        assert(self@.csrc.take(i as int) =~= self@.csrc);
        no_alloc
    }

    /// Writes the RFC 8285 one-byte extensions at `pos`.
    fn write_one_byte_body(&self, buf: &mut [u8], pos: usize) -> (n: usize)
        requires
            pos + ext_bytes_len(self@.extensions, 1) <= old(buf)@.len(),
            forall|i: int|
                0 <= i < self@.extensions.len() ==> #[trigger] self@.extensions[i].payload.len()
                    >= 1,
        ensures
            n == pos + ext_bytes_len(self@.extensions, 1),
            final(buf)@ == over(old(buf)@.take(pos as int) + one_byte_body(self@.extensions), old(buf)@),
    {
        let ghost o = buf@;
        let ghost exts = self@.extensions;
        let mut no_alloc = pos;
        let mut i: usize = 0;
        assert(exts.take(0) =~= Seq::<super::model::ExtensionModel>::empty());
        assert(o.take(pos as int) + one_byte_body(exts.take(0)) =~= o.take(pos as int));
        proof {
            lemma_ext_bytes_len_nonneg(exts, 1);
            lemma_ext_bytes_len_nonneg(exts, 2);
        }
        assert(over(o.take(pos as int), o) =~= o);
        while i < self.extensions.len()
            invariant
                exts == self@.extensions,
                o.len() == buf@.len(),
                pos + ext_bytes_len(exts, 1) <= o.len(),
                forall|k: int| 0 <= k < exts.len() ==> #[trigger] exts[k].payload.len() >= 1,
                i <= exts.len(),
                no_alloc == pos + ext_bytes_len(exts.take(i as int), 1),
                buf@ == over(o.take(pos as int) + one_byte_body(exts.take(i as int)), o),
            decreases exts.len() - i,
        {
            let ghost p = o.take(pos as int) + one_byte_body(exts.take(i as int));
            proof {
                lemma_ext_bytes_len_step(exts, i as int, 1);
                lemma_ext_bytes_len_prefix(exts, i + 1, 1);
                lemma_one_byte_body_len(exts.take(i as int));
                lemma_one_byte_body_step(exts, i as int);
            }
            let ghost e = exts[i as int];
            let b = self.extensions[i].id << 4 | #[verifier::truncate] ((self.extensions[i].payload.len() - 1) as u8);
            proof {
                lemma_over_push(p, o, b);
            }
            buf[no_alloc] = b;
            no_alloc += 1;
            let ghost q = p.push(b);
            let ghost mid = buf@;
            copy_into(buf, no_alloc, self.extensions[i].payload.as_slice());
            proof {
                lemma_over_take(q, o, q.len() as int);
                assert(mid.take(no_alloc as int) =~= q);
                lemma_over_over(q, q + e.payload, o);
                assert(q + e.payload =~= o.take(pos as int) + one_byte_body(exts.take(i + 1)));
            }
            no_alloc += self.extensions[i].payload.len();
            i += 1;
        }
        assert(exts.take(i as int) =~= exts);
        no_alloc
    }

    /// Writes the RFC 8285 two-byte extensions at `pos`.
    fn write_two_byte_body(&self, buf: &mut [u8], pos: usize) -> (n: usize)
        requires
            pos + ext_bytes_len(self@.extensions, 2) <= old(buf)@.len(),
        ensures
            n == pos + ext_bytes_len(self@.extensions, 2),
            final(buf)@ == over(old(buf)@.take(pos as int) + two_byte_body(self@.extensions), old(buf)@),
    {
        let ghost o = buf@;
        let ghost exts = self@.extensions;
        let mut no_alloc = pos;
        let mut i: usize = 0;
        assert(exts.take(0) =~= Seq::<super::model::ExtensionModel>::empty());
        assert(o.take(pos as int) + two_byte_body(exts.take(0)) =~= o.take(pos as int));
        proof {
            lemma_ext_bytes_len_nonneg(exts, 1);
            lemma_ext_bytes_len_nonneg(exts, 2);
        }
        assert(over(o.take(pos as int), o) =~= o);
        while i < self.extensions.len()
            invariant
                exts == self@.extensions,
                o.len() == buf@.len(),
                pos + ext_bytes_len(exts, 2) <= o.len(),
                i <= exts.len(),
                no_alloc == pos + ext_bytes_len(exts.take(i as int), 2),
                buf@ == over(o.take(pos as int) + two_byte_body(exts.take(i as int)), o),
            decreases exts.len() - i,
        {
            let ghost p = o.take(pos as int) + two_byte_body(exts.take(i as int));
            proof {
                lemma_ext_bytes_len_step(exts, i as int, 2);
                lemma_ext_bytes_len_prefix(exts, i + 1, 2);
                lemma_two_byte_body_len(exts.take(i as int));
                lemma_two_byte_body_step(exts, i as int);
            }
            let ghost e = exts[i as int];
            let id = self.extensions[i].id;
            proof {
                lemma_over_push(p, o, id);
            }
            buf[no_alloc] = id;
            no_alloc += 1;
            let len_byte = #[verifier::truncate] (self.extensions[i].payload.len() as u8);
            proof {
                lemma_over_push(p.push(id), o, len_byte);
            }
            buf[no_alloc] = len_byte;
            no_alloc += 1;
            let ghost q = p.push(id).push(len_byte);
            let ghost mid = buf@;
            copy_into(buf, no_alloc, self.extensions[i].payload.as_slice());
            proof {
                lemma_over_take(q, o, q.len() as int);
                assert(mid.take(no_alloc as int) =~= q);
                lemma_over_over(q, q + e.payload, o);
                assert(q + e.payload =~= o.take(pos as int) + two_byte_body(exts.take(i + 1)));
            }
            no_alloc += self.extensions[i].payload.len();
            i += 1;
        }
        assert(exts.take(i as int) =~= exts);
        no_alloc
    }

    /// Marshal serializes the packet into bytes.
    pub fn marshal(&mut self) -> (r: Result<Vec<u8>, RTPError>)
        requires
            old(self)@.marshal_requires(),
        ensures
            *final(self) == *old(self),
            r is Ok <==> !old(self)@.marshal_refused(),
            r matches Ok(bytes) ==> bytes@ == old(self)@.marshal_bytes() && bytes.len()
                == old(self)@.marshal_size(),
            r matches Err(e) ==> e == RTPError::ShortBuffer,
    {
        let mut buf = vec![0u8; self.marshal_size()];
        proof {
            lemma_marshal_bytes_len(self@);
        }
        let n = self.marshal_to(buf.as_mut_slice())?;
        assert(buf@ =~= self@.marshal_bytes());
        // The buffer is allocated with exactly the marshaled size.
        assert(n == buf.len());
        Ok(buf)
    }

    /// Serializes the header and writes to the buffer. It requires buf length size to have been allocated.
    #[verifier::spinoff_prover]
    #[verifier::rlimit(40)]
    pub fn marshal_to(&mut self, buf: &mut [u8]) -> (r: Result<usize, RTPError>)
        requires
            old(self)@.size_is_defined(),
            old(self)@.marshal_size() <= old(buf)@.len() ==> old(self)@.one_byte_payloads_nonempty(),
        ensures
            *final(self) == *old(self),
            r is Ok <==> (old(self)@.marshal_size() <= old(buf)@.len()
                && !old(self)@.marshal_refused()),
            r matches Ok(n) ==> {
                &&& n == old(self)@.marshal_size()
                &&& n == old(self)@.marshal_bytes().len()
                &&& final(buf)@ == over(old(self)@.marshal_bytes(), old(buf)@)
            },
            r matches Err(e) ==> {
                &&& e == RTPError::ShortBuffer
                &&& if old(self)@.marshal_size() > old(buf)@.len() {
                    final(buf)@ == old(buf)@
                } else {
                    final(buf)@ == over(
                        fixed_bytes(old(self)@) + be16(old(self).extension_profile),
                        old(buf)@,
                    )
                }
            },
    {
        let size = self.marshal_size();
        if size > buf.len() {
            return Err(RTPError::ShortBuffer);
        }
        let ghost o = buf@;
        let ghost h = self@;
        proof {
            lemma_marshal_size_bounds(h);
            lemma_fixed_bytes_len(h);
            lemma_marshal_bytes_len(h);
        }
        let mut no_alloc = self.write_fixed(buf);
        let ghost f = fixed_bytes(h);

        if self.extension {
            let ext_header_pos = no_alloc;
            proof {
                lemma_over_put2(f, o, self.extension_profile);
            }
            write_u16_at(buf, no_alloc, self.extension_profile);
            let ghost p = f + be16(self.extension_profile) + o.subrange(
                ext_header_pos + 2,
                ext_header_pos + 4,
            );
            assert(buf@ =~= over(p, o));
            no_alloc += 4;
            let start_extensions_pos = no_alloc;
            let ghost before_body = buf@;
            proof {
                lemma_ext_body_len(h);
                lemma_over_take(p, o, p.len() as int);
                assert(before_body.take(no_alloc as int) =~= p);
            }
            match ExtensionProfile::from(self.extension_profile) {
                // RFC 8285 RTP One Byte Header Extension
                ExtensionProfile::OneByte => {
                    no_alloc = self.write_one_byte_body(buf, no_alloc);
                },
                // RFC 8285 RTP Two Byte Header Extension
                ExtensionProfile::TwoByte => {
                    no_alloc = self.write_two_byte_body(buf, no_alloc);
                },
                // RFC3550 Extension
                _ => {
                    let ext_len = self.extensions[0].payload.len();
                    if ext_len % 4 != 0 {
                        // The payload must be in 32-bit words.
                        proof {
                            assert(f + be16(self.extension_profile) =~= p.take(
                                p.len() - 2,
                            ));
                            assert(buf@ =~= over(f + be16(self.extension_profile), o));
                        }
                        return Err(RTPError::ShortBuffer);
                    }
                    copy_into(buf, no_alloc, self.extensions[0].payload.as_slice());
                    no_alloc += self.extensions[0].payload.len();
                },
            }
            let ghost body = h.ext_body();
            proof {
                lemma_over_over(p, p + body, o);
                assert(buf@ == over(p + body, o));
            }

            // calculate extensions size and round to 4 bytes boundaries
            let ext_size = no_alloc - start_extensions_pos;
            let rounded_ext_size = ((ext_size + 3) / 4) * 4;
            let len_words = #[verifier::truncate] ((rounded_ext_size / 4) as u16);
            let ghost q = f + be16(self.extension_profile) + be16(len_words) + body;
            proof {
                lemma_over_update(p + body, o, ext_header_pos + 2, be16(len_words)[0]);
                lemma_over_update(
                    (p + body).update(ext_header_pos + 2, be16(len_words)[0]),
                    o,
                    ext_header_pos + 3,
                    be16(len_words)[1],
                );
                assert((p + body).update(ext_header_pos + 2, be16(len_words)[0]).update(
                    ext_header_pos + 3,
                    be16(len_words)[1],
                ) =~= q);
            }
            write_u16_at(buf, ext_header_pos + 2, len_words);
            assert(buf@ == over(q, o));

            // add padding to reach 4 bytes boundaries
            let pad = rounded_ext_size - ext_size;
            let mut k: usize = 0;
            assert(q + zeros(0) =~= q);
            while k < pad
                invariant
                    k <= pad,
                    no_alloc == q.len() + k,
                    q.len() + pad == h.marshal_size(),
                    h.marshal_size() <= o.len(),
                    o.len() == buf@.len(),
                    buf@ == over(q + zeros(k as nat), o),
                decreases pad - k,
            {
                proof {
                    lemma_over_push(q + zeros(k as nat), o, 0u8);
                    assert((q + zeros(k as nat)).push(0u8) =~= q + zeros((k + 1) as nat));
                }
                buf[no_alloc] = 0;
                no_alloc += 1;
                k += 1;
            }
            assert(q + zeros(pad as nat) =~= h.marshal_bytes());
        } else {
            assert(f + seq![] =~= h.marshal_bytes());
        }
        Ok(no_alloc)
    }
}

} // verus!
