//! Managing header extensions: set, get, list and delete by id.

use vstd::prelude::*;
use vstd::slice::slice_to_vec;

use super::model::{ext_models, lemma_ext_models_push, ExtensionModel, HeaderModel};
use super::{Extension, ExtensionProfile, Header};
use crate::errors::RTPError;

verus! {

/// The index of the first extension of `s` with id `id`, or -1 where none has it.
pub open spec fn first_index(s: Seq<ExtensionModel>, id: u8) -> int
    decreases s.len(),
{
    if s.len() == 0 {
        -1
    } else if s[0].id == id {
        0
    } else {
        let r = first_index(s.drop_first(), id);
        if r < 0 {
            -1
        } else {
            r + 1
        }
    }
}

/// `first_index` is the index of the first extension with the id, or -1
/// where there is none.
pub proof fn lemma_first_index(s: Seq<ExtensionModel>, id: u8)
    ensures
        -1 <= first_index(s, id) < s.len(),
        first_index(s, id) >= 0 ==> s[first_index(s, id)].id == id,
        forall|j: int|
            0 <= j < s.len() && (first_index(s, id) < 0 || j < first_index(s, id)) ==> #[trigger] s[j].id
                != id,
    decreases s.len(),
{
    if s.len() > 0 && s[0].id != id {
        lemma_first_index(s.drop_first(), id);
        assert forall|j: int|
            0 <= j < s.len() && (first_index(s, id) < 0 || j < first_index(s, id)) implies #[trigger] s[j].id
            != id by {
            if j > 0 {
                assert(s[j] == s.drop_first()[j - 1]);
            }
        }
    }
}

/// An index `k` before which no extension has id `id`, and at which one has
/// it (or which is the end), is the first index of `id`.
pub proof fn lemma_first_index_at(s: Seq<ExtensionModel>, id: u8, k: int)
    requires
        0 <= k <= s.len(),
        forall|j: int| 0 <= j < k ==> #[trigger] s[j].id != id,
        k < s.len() ==> s[k].id == id,
    ensures
        first_index(s, id) == if k < s.len() {
            k
        } else {
            -1
        },
    decreases s.len(),
{
    if s.len() > 0 && k > 0 {
        assert(s[0].id != id);
        assert forall|j: int| 0 <= j < k - 1 implies #[trigger] s.drop_first()[j].id != id by {
            assert(s.drop_first()[j] == s[j + 1]);
        }
        lemma_first_index_at(s.drop_first(), id, k - 1);
    }
}

/// The error that setting an extension with id `id` and a payload of `len`
/// bytes is refused with, if any.
pub open spec fn set_extension_error(h: HeaderModel, id: u8, len: int) -> Option<RTPError> {
    if !h.extension {
        None
    } else {
        match h.profile() {
            ExtensionProfile::OneByte => if !(1 <= id <= 14) {
                Some(RTPError::RFC8285OneByteHeaderIDRange(id))
            } else if len > 16 {
                Some(RTPError::RFC8285OneByteHeaderSize(id))
            } else {
                None
            },
            ExtensionProfile::TwoByte => if id < 1 {
                Some(RTPError::RFC8285TwoByteHeaderIDRange(id))
            } else if len > 255 {
                Some(RTPError::RFC8285TwoByteHeaderSize(id))
            } else {
                None
            },
            ExtensionProfile::Undefined => if id != 0 {
                Some(RTPError::RFC3550HeaderIDRange(id))
            } else {
                None
            },
        }
    }
}

/// The header after an extension with id `id` and payload `payload` is set:
/// with extensions enabled, the first extension with that id gets the
/// payload, or a new one is appended; otherwise extensions are enabled, the
/// profile chosen by the payload length, and the extension appended.
pub open spec fn set_extension_model(h: HeaderModel, id: u8, payload: Seq<u8>) -> HeaderModel {
    let e = ExtensionModel { id, payload };
    if h.extension {
        let k = first_index(h.extensions, id);
        HeaderModel {
            extensions: if k >= 0 {
                h.extensions.update(k, e)
            } else {
                h.extensions.push(e)
            },
            ..h
        }
    } else {
        HeaderModel {
            extension: true,
            extension_profile: if payload.len() <= 16 {
                0xBEDE
            } else if payload.len() < 256 {
                0x1000
            } else {
                h.extension_profile
            },
            extensions: h.extensions.push(e),
            ..h
        }
    }
}

impl HeaderModel {
    /// The payload of the first extension with id `id`, while extensions are
    /// enabled.
    pub open spec fn lookup(self, id: u8) -> Option<Seq<u8>> {
        let k = first_index(self.extensions, id);
        if !self.extension || k < 0 {
            None
        } else {
            Some(self.extensions[k].payload)
        }
    }

    /// The ids that `get_extension_ids` lists: each extension's id, in order,
    /// while extensions are enabled.
    pub open spec fn listed_ids(self) -> Seq<u8> {
        if !self.extension {
            seq![]
        } else {
            self.extensions.map_values(|e: ExtensionModel| e.id)
        }
    }
}

impl Header {
    /// Sets an RTP header extension
    pub fn set_extension(&mut self, id: u8, payload: &[u8]) -> (r: Result<(), RTPError>)
        ensures
            match set_extension_error(old(self)@, id, payload@.len() as int) {
                Some(e) => r == Err::<(), RTPError>(e) && *final(self) == *old(self),
                None => r == Ok::<(), RTPError>(()) && final(self)@ == set_extension_model(
                    old(self)@,
                    id,
                    payload@,
                ),
            },
    {
        let ghost h = self@;
        if self.extension {
            match ExtensionProfile::from(self.extension_profile) {
                ExtensionProfile::OneByte => {
                    if !(1 <= id && id <= 14) {
                        return Err(RTPError::RFC8285OneByteHeaderIDRange(id));
                    }
                    if payload.len() > 16 {
                        return Err(RTPError::RFC8285OneByteHeaderSize(id));
                    }
                },
                ExtensionProfile::TwoByte => {
                    if id < 1 {
                        return Err(RTPError::RFC8285TwoByteHeaderIDRange(id));
                    }
                    if payload.len() > 255 {
                        return Err(RTPError::RFC8285TwoByteHeaderSize(id));
                    }
                },
                _ => {
                    if id != 0 {
                        return Err(RTPError::RFC3550HeaderIDRange(id));
                    }
                },
            };

            // Update existing if it exists else add new extension
            let mut i: usize = 0;
            while i < self.extensions.len()
                invariant
                    *self == *old(self),
                    self@ == h,
                    h.extension,
                    set_extension_error(h, id, payload@.len() as int) is None,
                    i <= h.extensions.len(),
                    forall|j: int| 0 <= j < i ==> #[trigger] h.extensions[j].id != id,
                decreases h.extensions.len() - i,
            {
                if self.extensions[i].id == id {
                    proof {
                        lemma_first_index_at(h.extensions, id, i as int);
                    }
                    let ghost old_exts = self.extensions@;
                    let e = Extension { id, payload: slice_to_vec(payload) };
                    self.extensions.set(i, e);
                    proof {
                        assert(ext_models(self.extensions@) =~= ext_models(old_exts).update(
                            i as int,
                            e@,
                        ));
                        assert(self@ =~~= set_extension_model(h, id, payload@));
                    }
                    return Ok(());
                }
                i += 1;
            }
            proof {
                lemma_first_index_at(h.extensions, id, i as int);
            }
            let ghost old_exts = self.extensions@;
            let e = Extension { id, payload: slice_to_vec(payload) };
            self.extensions.push(e);
            proof {
                lemma_ext_models_push(old_exts, e);
                assert(self@ =~~= set_extension_model(h, id, payload@));
            }
            return Ok(());
        }
        // No existing header extensions

        self.extension = true;

        let len = payload.len();
        if len <= 16 {
            self.extension_profile = ExtensionProfile::OneByte.as_u16();
        } else if len > 16 && len < 256 {
            self.extension_profile = ExtensionProfile::TwoByte.as_u16();
        }
        let ghost old_exts = self.extensions@;
        let e = Extension { id, payload: slice_to_vec(payload) };
        self.extensions.push(e);
        proof {
            lemma_ext_models_push(old_exts, e);
            assert(self@ =~~= set_extension_model(h, id, payload@));
        }
        Ok(())
    }

    /// Returns an RTP header extension
    pub fn get_extension(&self, id: u8) -> (r: Option<&[u8]>)
        ensures
            r is Some <==> self@.lookup(id) is Some,
            r matches Some(p) ==> p@ == self@.lookup(id).unwrap(),
    {
        if !self.extension {
            return None;
        }
        let mut i: usize = 0;
        while i < self.extensions.len()
            invariant
                self.extension,
                i <= self@.extensions.len(),
                forall|j: int| 0 <= j < i ==> #[trigger] self@.extensions[j].id != id,
            decreases self@.extensions.len() - i,
        {
            if self.extensions[i].id == id {
                proof {
                    lemma_first_index_at(self@.extensions, id, i as int);
                }
                return Some(self.extensions[i].payload.as_slice());
            }
            i += 1;
        }
        proof {
            lemma_first_index_at(self@.extensions, id, i as int);
        }
        None
    }

    /// GetExtensionIDs returns an extension id array
    pub fn get_extension_ids(&self) -> (ids: Vec<u8>)
        ensures
            ids@ == self@.listed_ids(),
    {
        if !self.extension {
            return vec![];
        }
        if self.extensions.is_empty() {
            return vec![];
        }
        let n = self.extensions.len();
        let mut ids = vec![0u8; n];
        let mut i: usize = 0;
        while i < n
            invariant
                n == self@.extensions.len(),
                n > 0,
                ids@.len() == n,
                i <= n,
                forall|j: int| 0 <= j < i ==> ids@[j] == self@.extensions[j].id,
            decreases n - i,
        {
            ids[i] = self.extensions[i].id;
            i += 1;
        }
        assert(ids@ =~= self@.listed_ids());
        ids
    }

    /// Removes an RTP Header extension
    pub fn del_extension(&mut self, id: u8) -> (r: Result<(), RTPError>)
        ensures
            !old(self).extension ==> r == Err::<(), RTPError>(RTPError::HeaderExtensionNotEnabled)
                && *final(self) == *old(self),
            old(self).extension && first_index(old(self)@.extensions, id) < 0 ==> r == Err::<
                (),
                RTPError,
            >(RTPError::HeaderExtensionNotFound) && *final(self) == *old(self),
            old(self).extension && first_index(old(self)@.extensions, id) >= 0 ==> r == Ok::<
                (),
                RTPError,
            >(()) && final(self)@ == (HeaderModel {
                extensions: old(self)@.extensions.remove(first_index(old(self)@.extensions, id)),
                ..old(self)@
            }),
    {
        if !self.extension {
            return Err(RTPError::HeaderExtensionNotEnabled);
        }
        let ghost h = self@;
        let mut index: usize = 0;
        while index < self.extensions.len()
            invariant
                *self == *old(self),
                self@ == h,
                h.extension,
                index <= h.extensions.len(),
                forall|j: int| 0 <= j < index ==> #[trigger] h.extensions[j].id != id,
            decreases h.extensions.len() - index,
        {
            if self.extensions[index].id == id {
                proof {
                    lemma_first_index_at(h.extensions, id, index as int);
                }
                let ghost old_exts = self.extensions@;
                self.extensions.remove(index);
                proof {
                    assert(ext_models(self.extensions@) =~= ext_models(old_exts).remove(
                        index as int,
                    ));
                    assert(self@ =~~= HeaderModel {
                        extensions: h.extensions.remove(index as int),
                        ..h
                    });
                }
                return Ok(());
            }
            index += 1;
        }
        proof {
            lemma_first_index_at(h.extensions, id, index as int);
        }
        Err(RTPError::HeaderExtensionNotFound)
    }
}

} // verus!
