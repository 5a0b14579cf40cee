//! `HsdStruct` — a flat byte buffer plus a map of internal byte offsets that
//! point at other structs — and the `StructPool` that owns every struct of a
//! scene graph.
//!
//! A `StructRef` names a struct by its slot in the pool.  Two references are
//! the same struct iff they name the same slot: that identity (not byte
//! equality) is what an alias root shares with the struct it aliases, and
//! what the writer keys its layout on.  References are kept ordered by byte
//! offset, so every walk over them follows offset order.

use crate::be::{be16, be16_bytes, be32, be32_bytes, i16_of, i32_of, read_i16_at, read_i32_at, read_u16_at, read_u32_at, splice, u16_of, write_i16_at, write_u16_at, write_u32_at};
use crate::error::{HsdError, Result};
use crate::offset_map::{has_key_at, OffsetMap};
use vstd::prelude::*;
use vstd::utf8::{decode_utf8, valid_utf8};

verus! {

/// Identity of a struct: its slot in a `StructPool`.
pub type StructRef = usize;

/// Length of the NUL-terminated prefix of `s` (all of `s` when it holds no
/// zero byte).
pub open spec fn nul_terminated_len(s: Seq<u8>) -> nat
    decreases s.len(),
{
    if s.len() == 0 || s[0] == 0 {
        0
    } else {
        1 + nul_terminated_len(s.drop_first())
    }
}

pub proof fn lemma_nul_terminated_len(s: Seq<u8>)
    ensures
        nul_terminated_len(s) <= s.len(),
        forall|j: int| 0 <= j < nul_terminated_len(s) ==> s[j] != 0,
        nul_terminated_len(s) == s.len() || s[nul_terminated_len(s) as int] == 0,
    decreases s.len(),
{
    if s.len() > 0 && s[0] != 0 {
        let t = s.drop_first();
        lemma_nul_terminated_len(t);
        assert forall|j: int| 0 <= j < nul_terminated_len(s) implies s[j] != 0 by {
            if j > 0 {
                assert(s[j] == t[j - 1]);
            }
        }
    }
}

/// Find the NUL-terminated prefix length of `b`.
pub fn nul_position(b: &[u8]) -> (n: usize)
    ensures
        n == nul_terminated_len(b@),
{
    proof {
        lemma_nul_terminated_len(b@);
    }
    let mut i: usize = 0;
    while i < b.len()
        invariant
            i <= b@.len(),
            i <= nul_terminated_len(b@),
            forall|j: int| 0 <= j < i ==> b@[j] != 0,
            nul_terminated_len(b@) <= b@.len(),
            forall|j: int| 0 <= j < nul_terminated_len(b@) ==> b@[j] != 0,
            nul_terminated_len(b@) == b@.len() || b@[nul_terminated_len(b@) as int] == 0,
        decreases b@.len() - i,
    {
        if b[i] == 0 {
            return i;
        }
        i = i + 1;
    }
    i
}

/// `std::str::from_utf8`: succeeds exactly on valid UTF-8, and then views
/// the bytes as the decoded characters.
#[verifier::external_body]
fn utf8_str(b: &[u8]) -> (r: core::result::Result<&str, std::str::Utf8Error>)
    ensures
        r is Ok <==> valid_utf8(b@),
        r matches Ok(s) ==> s@ == decode_utf8(b@),
{
    std::str::from_utf8(b)
}

/// The UTF-8 text of `b` as an owned string, or the decoding error.
pub fn utf8_to_string(b: &[u8]) -> (r: core::result::Result<String, std::str::Utf8Error>)
    ensures
        r is Ok <==> valid_utf8(b@),
        r matches Ok(s) ==> s@ == decode_utf8(b@),
{
    match utf8_str(b) {
        Ok(s) => Ok(s.to_owned()),
        Err(e) => Err(e),
    }
}

/// The text of a NUL-terminated UTF-8 symbol stored in `s`.
pub open spec fn symbol_text(s: Seq<u8>) -> Seq<char> {
    decode_utf8(s.take(nul_terminated_len(s) as int))
}

/// The symbol stored in `s` decodes.
pub open spec fn symbol_valid(s: Seq<u8>) -> bool {
    valid_utf8(s.take(nul_terminated_len(s) as int))
}

#[derive(Debug)]
pub struct HsdStruct {
    /// Raw bytes of this struct (NOT including any pointed-at substructures).
    data: Vec<u8>,
    /// Byte-offset → referenced struct.  An offset of `K` means the 4 bytes at
    /// `data[K..K+4]` hold a pointer whose target is recorded here.
    references: OffsetMap<StructRef>,
    /// Texture / display-list buffers want 0x20 alignment at write time.
    is_buffer_aligned: bool,
    /// When not a buffer, write-time alignment is 4 if true, none if false.
    align: bool,
    /// Buffer dedup may merge this struct with a byte-equal one.
    can_be_duplicate: bool,
    /// Whether this struct may be classified as a buffer at all.
    can_be_buffer: bool,
}

impl HsdStruct {
    /// The struct's bytes.
    pub closed spec fn bytes(&self) -> Seq<u8> {
        self.data@
    }

    /// Offset → target map of the struct's references.
    pub closed spec fn refs(&self) -> Map<u32, StructRef> {
        self.references.view()
    }

    /// The references in offset order.
    pub closed spec fn ref_pairs(&self) -> Seq<(u32, StructRef)> {
        self.references.pairs()
    }

    /// Internal consistency of the reference map.
    pub closed spec fn wf(&self) -> bool {
        self.references.wf()
    }

    /// Every reference targets a slot below `n`.
    pub open spec fn refs_below(&self, n: nat) -> bool {
        forall|k: u32| #[trigger] self.refs().contains_key(k) ==> self.refs()[k] < n
    }

    /// `IsBufferAligned`: flagged as a 0x20-aligned buffer.
    pub closed spec fn buffer_aligned(&self) -> bool {
        self.is_buffer_aligned
    }

    /// `Align`: 4-aligned at write time when not a buffer.
    pub closed spec fn aligned(&self) -> bool {
        self.align
    }

    /// `CanBeDuplicate`: a candidate for buffer dedup.
    pub closed spec fn duplicable(&self) -> bool {
        self.can_be_duplicate
    }

    /// `CanBeBuffer`: may be classified as a buffer.
    pub closed spec fn bufferable(&self) -> bool {
        self.can_be_buffer
    }

    /// The default flags of a fresh struct.
    pub open spec fn default_flags(&self) -> bool {
        !self.buffer_aligned() && self.aligned() && self.duplicable() && self.bufferable()
    }

    /// Same four flags as `other`.
    pub open spec fn same_flags(&self, other: &HsdStruct) -> bool {
        self.buffer_aligned() == other.buffer_aligned() && self.aligned() == other.aligned()
            && self.duplicable() == other.duplicable() && self.bufferable() == other.bufferable()
    }

    pub fn is_buffer_aligned(&self) -> (b: bool)
        ensures
            b == self.buffer_aligned(),
    {
        self.is_buffer_aligned
    }

    pub fn align(&self) -> (b: bool)
        ensures
            b == self.aligned(),
    {
        self.align
    }

    pub fn can_be_duplicate(&self) -> (b: bool)
        ensures
            b == self.duplicable(),
    {
        self.can_be_duplicate
    }

    pub fn can_be_buffer(&self) -> (b: bool)
        ensures
            b == self.bufferable(),
    {
        self.can_be_buffer
    }

    pub fn set_is_buffer_aligned(&mut self, v: bool)
        ensures
            final(self).buffer_aligned() == v,
            final(self).aligned() == old(self).aligned(),
            final(self).duplicable() == old(self).duplicable(),
            final(self).bufferable() == old(self).bufferable(),
            final(self).bytes() == old(self).bytes(),
            final(self).refs() == old(self).refs(),
            final(self).ref_pairs() == old(self).ref_pairs(),
            final(self).wf() == old(self).wf(),
    {
        self.is_buffer_aligned = v;
    }

    pub fn set_align(&mut self, v: bool)
        ensures
            final(self).aligned() == v,
            final(self).buffer_aligned() == old(self).buffer_aligned(),
            final(self).duplicable() == old(self).duplicable(),
            final(self).bufferable() == old(self).bufferable(),
            final(self).bytes() == old(self).bytes(),
            final(self).refs() == old(self).refs(),
            final(self).ref_pairs() == old(self).ref_pairs(),
            final(self).wf() == old(self).wf(),
    {
        self.align = v;
    }

    pub fn set_can_be_duplicate(&mut self, v: bool)
        ensures
            final(self).duplicable() == v,
            final(self).buffer_aligned() == old(self).buffer_aligned(),
            final(self).aligned() == old(self).aligned(),
            final(self).bufferable() == old(self).bufferable(),
            final(self).bytes() == old(self).bytes(),
            final(self).refs() == old(self).refs(),
            final(self).ref_pairs() == old(self).ref_pairs(),
            final(self).wf() == old(self).wf(),
    {
        self.can_be_duplicate = v;
    }

    pub fn set_can_be_buffer(&mut self, v: bool)
        ensures
            final(self).bufferable() == v,
            final(self).buffer_aligned() == old(self).buffer_aligned(),
            final(self).aligned() == old(self).aligned(),
            final(self).duplicable() == old(self).duplicable(),
            final(self).bytes() == old(self).bytes(),
            final(self).refs() == old(self).refs(),
            final(self).ref_pairs() == old(self).ref_pairs(),
            final(self).wf() == old(self).wf(),
    {
        self.can_be_buffer = v;
    }

    pub proof fn lemma_ref_pairs(&self)
        requires
            self.wf(),
        ensures
            forall|i: int, j: int|
                0 <= i < j < self.ref_pairs().len() ==> self.ref_pairs()[i].0 < self.ref_pairs()[j].0,
            forall|k: u32| #[trigger] self.refs().contains_key(k) <==> has_key_at(self.ref_pairs(), k),
            forall|i: int|
                0 <= i < self.ref_pairs().len() ==> #[trigger] self.refs()[self.ref_pairs()[i].0]
                    == self.ref_pairs()[i].1,
            self.refs().dom().finite(),
    {
        self.references.lemma_view();
    }

    pub fn new() -> (s: Self)
        ensures
            s.wf(),
            s.bytes().len() == 0,
            s.refs() == Map::<u32, StructRef>::empty(),
            s.default_flags(),
    {
        Self::with_capacity(0)
    }

    /// A zero-filled struct of `size` bytes.
    pub fn with_capacity(size: usize) -> (s: Self)
        ensures
            s.wf(),
            s.bytes() == Seq::new(size as nat, |i: int| 0u8),
            s.refs() == Map::<u32, StructRef>::empty(),
            s.default_flags(),
    {
        let data = vec![0u8; size];
        proof {
            assert(data@ =~= Seq::new(size as nat, |i: int| 0u8));
        }
        HsdStruct {
            data,
            references: OffsetMap::new(),
            is_buffer_aligned: false,
            align: true,
            can_be_duplicate: true,
            can_be_buffer: true,
        }
    }

    /// A struct holding `data` and no references.
    pub fn from_bytes(data: Vec<u8>) -> (s: Self)
        ensures
            s.wf(),
            s.bytes() == data@,
            s.refs() == Map::<u32, StructRef>::empty(),
            s.default_flags(),
    {
        HsdStruct {
            data,
            references: OffsetMap::new(),
            is_buffer_aligned: false,
            align: true,
            can_be_duplicate: true,
            can_be_buffer: true,
        }
    }

    /// Move this struct into `pool`, returning its identity.
    pub fn into_ref(self, pool: &mut StructPool) -> (r: StructRef)
        requires
            old(pool).wf(),
            self.wf(),
            self.refs_below(old(pool).len()),
        ensures
            r == old(pool).len(),
            final(pool).wf(),
            final(pool).len() == old(pool).len() + 1,
            final(pool).at(r as int) == self,
            forall|q: int| 0 <= q < old(pool).len() ==> final(pool).at(q) == old(pool).at(q),
    {
        pool.add(self)
    }

    pub fn len(&self) -> (n: usize)
        ensures
            n == self.bytes().len(),
    {
        self.data.len()
    }

    pub fn is_empty(&self) -> (b: bool)
        ensures
            b == (self.bytes().len() == 0),
    {
        self.data.len() == 0
    }

    pub fn data(&self) -> (d: &[u8])
        ensures
            d@ == self.bytes(),
    {
        self.data.as_slice()
    }

    /// Replace the bytes, dropping references that fall past the new tail.
    pub fn set_data(&mut self, data: Vec<u8>)
        requires
            old(self).wf(),
        ensures
            final(self).wf(),
            final(self).bytes() == data@,
            final(self).refs() == old(self).refs().restrict(
                Set::new(|k: u32| k < data@.len() as u32),
            ),
            final(self).same_flags(&old(self)),
    {
        let new_len = data.len() as u32;
        self.data = data;
        self.references.retain_below(new_len);
    }

    /// Grow (zero-filled) or shrink the bytes, dropping references that
    /// fall past the new tail.
    pub fn resize(&mut self, new_len: usize)
        requires
            old(self).wf(),
        ensures
            final(self).wf(),
            final(self).bytes().len() == new_len,
            forall|i: int|
                0 <= i < new_len ==> #[trigger] final(self).bytes()[i] == (if i < old(
                    self,
                ).bytes().len() {
                    old(self).bytes()[i]
                } else {
                    0u8
                }),
            final(self).refs() == old(self).refs().restrict(
                Set::new(|k: u32| k < new_len as u32),
            ),
            final(self).same_flags(&old(self)),
    {
        self.data.resize(new_len, 0);
        let cap = new_len as u32;
        self.references.retain_below(cap);
    }

    pub fn references(&self) -> (m: &OffsetMap<StructRef>)
        ensures
            m.wf() == self.wf(),
            m.view() == self.refs(),
            m.pairs() == self.ref_pairs(),
    {
        &self.references
    }

    /// Set or replace a reference at `offset`; passing `None` removes it.
    pub fn set_reference(&mut self, offset: u32, target: Option<StructRef>)
        requires
            old(self).wf(),
        ensures
            final(self).wf(),
            final(self).bytes() == old(self).bytes(),
            final(self).refs() == (match target {
                Some(t) => old(self).refs().insert(offset, t),
                None => old(self).refs().remove(offset),
            }),
            final(self).same_flags(&old(self)),
    {
        match target {
            Some(t) => {
                self.references.insert(offset, t);
            },
            None => {
                self.references.remove(offset);
            },
        }
    }

    pub fn get_reference(&self, offset: u32) -> (r: Option<StructRef>)
        requires
            self.wf(),
        ensures
            r == (if self.refs().contains_key(offset) {
                Some(self.refs()[offset])
            } else {
                None
            }),
    {
        self.references.get(offset)
    }

    /// Result of reading the byte at `off`.
    pub open spec fn byte_field(&self, off: u32) -> Result<u8> {
        if self.fits(off, 1) {
            Ok(self.bytes()[off as int])
        } else {
            Err(self.oob(off, 1))
        }
    }

    /// Result of reading the big-endian `u16` at `off`.
    pub open spec fn u16_field(&self, off: u32) -> Result<u16> {
        if self.fits(off, 2) {
            Ok(be16(self.bytes(), off as int))
        } else {
            Err(self.oob(off, 2))
        }
    }

    /// Result of reading the big-endian `i16` at `off`.
    pub open spec fn i16_field(&self, off: u32) -> Result<i16> {
        if self.fits(off, 2) {
            Ok(i16_of(be16(self.bytes(), off as int)))
        } else {
            Err(self.oob(off, 2))
        }
    }

    /// Result of reading the big-endian `u32` at `off`.
    pub open spec fn u32_field(&self, off: u32) -> Result<u32> {
        if self.fits(off, 4) {
            Ok(be32(self.bytes(), off as int))
        } else {
            Err(self.oob(off, 4))
        }
    }

    /// Result of reading the big-endian `i32` at `off`.
    pub open spec fn i32_field(&self, off: u32) -> Result<i32> {
        if self.fits(off, 4) {
            Ok(i32_of(be32(self.bytes(), off as int)))
        } else {
            Err(self.oob(off, 4))
        }
    }

    /// The struct referenced at `off`, if any.
    pub open spec fn ref_at(&self, off: u32) -> Option<StructRef> {
        if self.refs().contains_key(off) {
            Some(self.refs()[off])
        } else {
            None
        }
    }

    /// The out-of-bounds error a read of `requested` bytes at `at` raises.
    pub open spec fn oob(&self, at: u32, requested: u32) -> HsdError {
        HsdError::StructOob { at, requested, len: self.bytes().len() as u32 }
    }

    /// `offset + n` lies within the bytes.
    pub open spec fn fits(&self, offset: u32, n: int) -> bool {
        offset as int + n <= self.bytes().len()
    }

    pub fn get_byte(&self, offset: u32) -> (r: Result<u8>)
        ensures
            self.fits(offset, 1) ==> r == Ok::<u8, HsdError>(self.bytes()[offset as int]),
            !self.fits(offset, 1) ==> r == Err::<u8, HsdError>(self.oob(offset, 1)),
    {
        if (offset as usize) < self.data.len() {
            Ok(self.data[offset as usize])
        } else {
            Err(HsdError::StructOob { at: offset, requested: 1, len: self.data.len() as u32 })
        }
    }

    /// The `len` bytes at `offset`.
    pub fn get_bytes(&self, offset: u32, len: u32) -> (r: Result<&[u8]>)
        ensures
            self.fits(offset, len as int) ==> (r matches Ok(b) && b@ == self.bytes().subrange(
                offset as int,
                offset + len,
            )),
            !self.fits(offset, len as int) ==> (r matches Err(e) && e == self.oob(offset, len)),
    {
        let start = offset as usize;
        let n = len as usize;
        if start <= self.data.len() && n <= self.data.len() - start {
            Ok(vstd::slice::slice_subrange(self.data.as_slice(), start, start + n))
        } else {
            Err(HsdError::StructOob { at: offset, requested: len, len: self.data.len() as u32 })
        }
    }

    pub fn get_u16(&self, offset: u32) -> (r: Result<u16>)
        ensures
            self.fits(offset, 2) ==> r == Ok::<u16, HsdError>(be16(self.bytes(), offset as int)),
            !self.fits(offset, 2) ==> r == Err::<u16, HsdError>(self.oob(offset, 2)),
    {
        if self.data.len() >= 2 && offset as usize <= self.data.len() - 2 {
            Ok(read_u16_at(self.data.as_slice(), offset as usize))
        } else {
            Err(HsdError::StructOob { at: offset, requested: 2, len: self.data.len() as u32 })
        }
    }

    pub fn get_i16(&self, offset: u32) -> (r: Result<i16>)
        ensures
            self.fits(offset, 2) ==> r == Ok::<i16, HsdError>(
                i16_of(be16(self.bytes(), offset as int)),
            ),
            !self.fits(offset, 2) ==> r == Err::<i16, HsdError>(self.oob(offset, 2)),
    {
        if self.data.len() >= 2 && offset as usize <= self.data.len() - 2 {
            Ok(read_i16_at(self.data.as_slice(), offset as usize))
        } else {
            Err(HsdError::StructOob { at: offset, requested: 2, len: self.data.len() as u32 })
        }
    }

    pub fn get_u32(&self, offset: u32) -> (r: Result<u32>)
        ensures
            self.fits(offset, 4) ==> r == Ok::<u32, HsdError>(be32(self.bytes(), offset as int)),
            !self.fits(offset, 4) ==> r == Err::<u32, HsdError>(self.oob(offset, 4)),
    {
        if self.data.len() >= 4 && offset as usize <= self.data.len() - 4 {
            Ok(read_u32_at(self.data.as_slice(), offset as usize))
        } else {
            Err(HsdError::StructOob { at: offset, requested: 4, len: self.data.len() as u32 })
        }
    }

    pub fn get_i32(&self, offset: u32) -> (r: Result<i32>)
        ensures
            self.fits(offset, 4) ==> r == Ok::<i32, HsdError>(
                i32_of(be32(self.bytes(), offset as int)),
            ),
            !self.fits(offset, 4) ==> r == Err::<i32, HsdError>(self.oob(offset, 4)),
    {
        if self.data.len() >= 4 && offset as usize <= self.data.len() - 4 {
            Ok(read_i32_at(self.data.as_slice(), offset as usize))
        } else {
            Err(HsdError::StructOob { at: offset, requested: 4, len: self.data.len() as u32 })
        }
    }

    /// Write one byte.
    pub fn set_byte(&mut self, offset: u32, v: u8) -> (r: Result<()>)
        requires
            old(self).wf(),
        ensures
            final(self).wf(),
            old(self).fits(offset, 1) ==> r is Ok && final(self).bytes() == old(self).bytes().update(
                offset as int,
                v,
            ),
            !old(self).fits(offset, 1) ==> r == Err::<(), HsdError>(old(self).oob(offset, 1))
                && final(self).bytes() == old(self).bytes(),
            final(self).refs() == old(self).refs(),
            final(self).same_flags(&old(self)),
    {
        if (offset as usize) < self.data.len() {
            self.data.set(offset as usize, v);
            Ok(())
        } else {
            Err(HsdError::StructOob { at: offset, requested: 1, len: self.data.len() as u32 })
        }
    }

    /// Write a big-endian `u16`.
    pub fn set_u16(&mut self, offset: u32, v: u16) -> (r: Result<()>)
        requires
            old(self).wf(),
        ensures
            final(self).wf(),
            old(self).fits(offset, 2) ==> r is Ok && final(self).bytes() == splice(
                old(self).bytes(),
                offset as int,
                be16_bytes(v),
            ),
            !old(self).fits(offset, 2) ==> r == Err::<(), HsdError>(old(self).oob(offset, 2))
                && final(self).bytes() == old(self).bytes(),
            final(self).refs() == old(self).refs(),
            final(self).same_flags(&old(self)),
    {
        if self.data.len() >= 2 && offset as usize <= self.data.len() - 2 {
            write_u16_at(&mut self.data, offset as usize, v);
            Ok(())
        } else {
            Err(HsdError::StructOob { at: offset, requested: 2, len: self.data.len() as u32 })
        }
    }

    /// Write a big-endian `i16`.
    pub fn set_i16(&mut self, offset: u32, v: i16) -> (r: Result<()>)
        requires
            old(self).wf(),
        ensures
            final(self).wf(),
            old(self).fits(offset, 2) ==> r is Ok && final(self).bytes() == splice(
                old(self).bytes(),
                offset as int,
                be16_bytes(u16_of(v)),
            ),
            !old(self).fits(offset, 2) ==> r == Err::<(), HsdError>(old(self).oob(offset, 2))
                && final(self).bytes() == old(self).bytes(),
            final(self).refs() == old(self).refs(),
            final(self).same_flags(&old(self)),
    {
        if self.data.len() >= 2 && offset as usize <= self.data.len() - 2 {
            write_i16_at(&mut self.data, offset as usize, v);
            Ok(())
        } else {
            Err(HsdError::StructOob { at: offset, requested: 2, len: self.data.len() as u32 })
        }
    }

    /// Write a big-endian `u32`.
    pub fn set_u32(&mut self, offset: u32, v: u32) -> (r: Result<()>)
        requires
            old(self).wf(),
        ensures
            final(self).wf(),
            old(self).fits(offset, 4) ==> r is Ok && final(self).bytes() == splice(
                old(self).bytes(),
                offset as int,
                be32_bytes(v),
            ),
            !old(self).fits(offset, 4) ==> r == Err::<(), HsdError>(old(self).oob(offset, 4))
                && final(self).bytes() == old(self).bytes(),
            final(self).refs() == old(self).refs(),
            final(self).same_flags(&old(self)),
    {
        if self.data.len() >= 4 && offset as usize <= self.data.len() - 4 {
            write_u32_at(&mut self.data, offset as usize, v);
            Ok(())
        } else {
            Err(HsdError::StructOob { at: offset, requested: 4, len: self.data.len() as u32 })
        }
    }
}

/// Owner of every struct of a scene graph; a `StructRef` is a slot here.
#[derive(Debug)]
pub struct StructPool {
    structs: Vec<HsdStruct>,
}

impl StructPool {
    /// Number of slots.
    pub closed spec fn len(&self) -> nat {
        self.structs@.len()
    }

    /// The struct in slot `r`.
    pub closed spec fn at(&self, r: int) -> HsdStruct {
        self.structs@[r]
    }

    /// Every struct is consistent and every reference names a slot.
    pub open spec fn wf(&self) -> bool {
        forall|r: int|
            0 <= r < self.len() ==> #[trigger] self.at(r).wf() && self.at(r).refs_below(self.len())
    }

    /// Same slots as `other`, all equal but possibly `r`.
    pub open spec fn same_except(&self, other: &StructPool, r: int) -> bool {
        &&& self.len() == other.len()
        &&& forall|q: int| 0 <= q < other.len() && q != r ==> self.at(q) == other.at(q)
    }

    /// `other` plus one new slot at the end.
    pub open spec fn extends(&self, other: &StructPool) -> bool {
        &&& self.len() == other.len() + 1
        &&& forall|q: int| 0 <= q < other.len() ==> self.at(q) == other.at(q)
    }

    /// `q` is a reference target of struct `r`.
    pub open spec fn points_to(&self, r: int, q: int) -> bool {
        exists|k: u32| #[trigger] self.at(r).refs().contains_key(k) && self.at(r).refs()[k] == q
    }

    pub fn new() -> (p: Self)
        ensures
            p.wf(),
            p.len() == 0,
    {
        StructPool { structs: Vec::new() }
    }

    pub fn len_exec(&self) -> (n: usize)
        ensures
            n == self.len(),
    {
        self.structs.len()
    }

    /// Add a struct, returning its identity.
    pub fn add(&mut self, s: HsdStruct) -> (r: StructRef)
        requires
            old(self).wf(),
            s.wf(),
            s.refs_below(old(self).len()),
        ensures
            r == old(self).len(),
            final(self).wf(),
            final(self).len() == old(self).len() + 1,
            final(self).at(r as int) == s,
            forall|q: int| 0 <= q < old(self).len() ==> final(self).at(q) == old(self).at(q),
    {
        let r = self.structs.len();
        self.structs.push(s);
        proof {
            assert forall|q: int| 0 <= q < self.len() implies #[trigger] self.at(q).wf()
                && self.at(q).refs_below(self.len()) by {
                if q < r {
                    assert(old(self).at(q).wf());
                    assert(self.at(q) == old(self).at(q));
                }
            }
        }
        r
    }

    /// The struct in slot `r`.
    pub fn get(&self, r: StructRef) -> (s: &HsdStruct)
        requires
            r < self.len(),
        ensures
            *s == self.at(r as int),
    {
        &self.structs[r]
    }

    /// Apply `set_reference` to struct `r`.
    pub fn set_reference(&mut self, r: StructRef, offset: u32, target: Option<StructRef>)
        requires
            old(self).wf(),
            r < old(self).len(),
            target matches Some(t) ==> t < old(self).len(),
        ensures
            final(self).wf(),
            final(self).len() == old(self).len(),
            final(self).at(r as int).bytes() == old(self).at(r as int).bytes(),
            final(self).at(r as int).refs() == (match target {
                Some(t) => old(self).at(r as int).refs().insert(offset, t),
                None => old(self).at(r as int).refs().remove(offset),
            }),
            final(self).at(r as int).same_flags(&old(self).at(r as int)),
            forall|q: int|
                0 <= q < old(self).len() && q != r ==> final(self).at(q) == old(self).at(q),
    {
        assert(self.at(r as int).wf());
        self.structs[r].set_reference(offset, target);
        proof {
            assert forall|q: int| 0 <= q < self.len() implies #[trigger] self.at(q).wf()
                && self.at(q).refs_below(self.len()) by {
                if q != r {
                    assert(old(self).at(q).wf());
                } else {
                    assert(old(self).at(q).wf());
                    assert forall|k: u32| #[trigger] self.at(q).refs().contains_key(k) implies self.at(
                        q,
                    ).refs()[k] < self.len() by {
                        if Some(k) != Some(offset) {
                            assert(old(self).at(q).refs().contains_key(k));
                        }
                    }
                }
            }
        }
    }
}


impl StructPool {
    /// Take struct `r` out of its slot (leaving a fresh empty struct there)
    /// to edit it; put it back with `put`.
    pub fn take(&mut self, r: StructRef) -> (s: HsdStruct)
        requires
            old(self).wf(),
            r < old(self).len(),
        ensures
            s == old(self).at(r as int),
            s.wf(),
            s.refs_below(old(self).len()),
            final(self).wf(),
            final(self).len() == old(self).len(),
            final(self).at(r as int).bytes().len() == 0,
            final(self).at(r as int).refs() == Map::<u32, StructRef>::empty(),
            forall|q: int|
                0 <= q < old(self).len() && q != r ==> final(self).at(q) == old(self).at(q),
    {
        assert(self.at(r as int).wf());
        let mut s = HsdStruct::new();
        std::mem::swap(&mut self.structs[r], &mut s);
        proof {
            assert forall|q: int| 0 <= q < self.len() implies #[trigger] self.at(q).wf()
                && self.at(q).refs_below(self.len()) by {
                if q != r {
                    assert(old(self).at(q).wf());
                }
            }
        }
        s
    }

    /// Store `s` in slot `r`.
    pub fn put(&mut self, r: StructRef, s: HsdStruct)
        requires
            old(self).wf(),
            r < old(self).len(),
            s.wf(),
            s.refs_below(old(self).len()),
        ensures
            final(self).wf(),
            final(self).len() == old(self).len(),
            final(self).at(r as int) == s,
            forall|q: int|
                0 <= q < old(self).len() && q != r ==> final(self).at(q) == old(self).at(q),
    {
        self.structs.set(r, s);
        proof {
            assert forall|q: int| 0 <= q < self.len() implies #[trigger] self.at(q).wf()
                && self.at(q).refs_below(self.len()) by {
                if q != r {
                    assert(old(self).at(q).wf());
                }
            }
        }
    }
}

/// `r` is what reading the string referenced at `offset` of `s` yields:
/// `None` without a reference, the decoded NUL-terminated text when it is
/// valid UTF-8, a `Utf8` error at `offset` otherwise.
pub open spec fn string_read(
    pool: &StructPool,
    s: HsdStruct,
    offset: u32,
    r: Result<Option<String>>,
) -> bool {
    &&& !s.refs().contains_key(offset) ==> r == Ok::<Option<String>, HsdError>(None)
    &&& s.refs().contains_key(offset) ==> ({
        let b = pool.at(s.refs()[offset] as int).bytes();
        &&& symbol_valid(b) ==> (r matches Ok(Some(t)) && t@ == symbol_text(b))
        &&& !symbol_valid(b) ==> (r matches Err(HsdError::Utf8 { offset: o, .. }) && o
            == offset as u64)
    })
}

impl HsdStruct {
    /// Read the NUL-terminated UTF-8 string held by the struct referenced at
    /// `offset`.  `None` when no reference is set there.
    pub fn get_string(&self, pool: &StructPool, offset: u32) -> (r: Result<Option<String>>)
        requires
            pool.wf(),
            self.wf(),
            self.refs_below(pool.len()),
        ensures
            string_read(pool, *self, offset, r),
    {
        match self.get_reference(offset) {
            None => Ok(None),
            Some(t) => {
                let bytes = pool.get(t).data();
                let nul = nul_position(bytes);
                proof {
                    lemma_nul_terminated_len(bytes@);
                }
                let head = vstd::slice::slice_subrange(bytes, 0, nul);
                proof {
                    assert(head@ =~= bytes@.take(nul as int));
                }
                match utf8_to_string(head) {
                    Ok(s) => Ok(Some(s)),
                    Err(source) => Err(HsdError::Utf8 { offset: offset as u64, source }),
                }
            },
        }
    }
}

/// Identity key of a struct, for visited-set tracking and writer dedup.
pub fn identity(s: &StructRef) -> (id: usize)
    ensures
        id == *s,
{
    *s
}

/// Two references alias iff they name the same struct.
pub fn ptr_eq(a: &StructRef, b: &StructRef) -> (same: bool)
    ensures
        same == (*a == *b),
{
    *a == *b
}

/// Number of `false` entries.
pub open spec fn count_false(s: Seq<bool>) -> nat
    decreases s.len(),
{
    if s.len() == 0 {
        0
    } else {
        count_false(s.drop_last()) + (if s.last() {
            0nat
        } else {
            1nat
        })
    }
}

pub proof fn lemma_count_false_mono(a: Seq<bool>, b: Seq<bool>)
    requires
        a.len() == b.len(),
        forall|i: int| 0 <= i < a.len() && a[i] ==> b[i],
    ensures
        count_false(b) <= count_false(a),
    decreases a.len(),
{
    if a.len() > 0 {
        lemma_count_false_mono(a.drop_last(), b.drop_last());
    }
}

pub proof fn lemma_count_false_flip(a: Seq<bool>, b: Seq<bool>, i: int)
    requires
        a.len() == b.len(),
        forall|j: int| 0 <= j < a.len() && a[j] ==> b[j],
        0 <= i < a.len(),
        !a[i],
        b[i],
    ensures
        count_false(b) < count_false(a),
    decreases a.len(),
{
    if i == a.len() - 1 {
        lemma_count_false_mono(a.drop_last(), b.drop_last());
    } else {
        lemma_count_false_flip(a.drop_last(), b.drop_last(), i);
    }
}

/// `out` lists distinct slots, each a walk start or the target of an
/// earlier entry's reference.
pub open spec fn dfs_order_ok(pool: &StructPool, out: Seq<StructRef>, starts: Set<StructRef>) -> bool {
    &&& out.no_duplicates()
    &&& forall|j: int| 0 <= j < out.len() ==> #[trigger] out[j] < pool.len()
    &&& forall|j: int|
        0 <= j < out.len() ==> starts.contains(#[trigger] out[j]) || exists|i: int|
            0 <= i < j && pool.points_to(out[i] as int, out[j] as int)
}

/// Every reference of every struct in `out` targets a struct in `out`.
pub open spec fn closed_under_refs(pool: &StructPool, out: Seq<StructRef>) -> bool {
    forall|j: int, k: u32|
        0 <= j < out.len() && #[trigger] pool.at(out[j] as int).refs().contains_key(k)
            ==> out.contains(pool.at(out[j] as int).refs()[k])
}

/// `seen` marks exactly the slots listed in `out`.
pub open spec fn seen_matches(seen: Seq<bool>, out: Seq<StructRef>) -> bool {
    forall|q: int| 0 <= q < seen.len() ==> (#[trigger] seen[q] <==> out.contains(q as StructRef))
}

pub proof fn lemma_count_false_le(a: Seq<bool>)
    ensures
        count_false(a) <= a.len(),
    decreases a.len(),
{
    if a.len() > 0 {
        lemma_count_false_le(a.drop_last());
    }
}

/// The structs `cur` points to, in ascending order of the pointer's offset.
pub open spec fn children_of(pool: &StructPool, cur: int) -> Seq<StructRef> {
    pool.at(cur).ref_pairs().map_values(|p: (u32, StructRef)| p.1)
}

/// Depth-first pre-order walk from `cur` with the structs marked in `seen`
/// skipped: `cur`, then the walk from each child in ascending offset order.
/// Gives the structs visited and the marks after; `fuel` bounds the depth.
pub open spec fn dfs(pool: &StructPool, cur: StructRef, seen: Seq<bool>, fuel: nat) -> (Seq<StructRef>, Seq<bool>)
    decreases fuel, 0nat,
{
    if fuel == 0 || seen[cur as int] {
        (Seq::empty(), seen)
    } else {
        let r = dfs_list(pool, children_of(pool, cur as int), seen.update(cur as int, true), (fuel - 1) as nat);
        (seq![cur] + r.0, r.1)
    }
}

/// The walks from each of `cs` in turn.
pub open spec fn dfs_list(pool: &StructPool, cs: Seq<StructRef>, seen: Seq<bool>, fuel: nat) -> (Seq<StructRef>, Seq<bool>)
    decreases fuel, cs.len() + 1,
{
    if cs.len() == 0 {
        (Seq::empty(), seen)
    } else {
        let a = dfs(pool, cs[0], seen, fuel);
        let b = dfs_list(pool, cs.drop_first(), a.1, fuel);
        (a.0 + b.0, b.1)
    }
}

/// Depth-first pre-order walk from `cur`, skipping structs already seen.
pub(crate) fn walk(
    pool: &StructPool,
    cur: StructRef,
    seen: &mut Vec<bool>,
    out: &mut Vec<StructRef>,
    Ghost(starts): Ghost<Set<StructRef>>,
    Ghost(fuel): Ghost<nat>,
)
    requires
        fuel > count_false(old(seen)@),
        pool.wf(),
        cur < pool.len(),
        old(seen)@.len() == pool.len(),
        seen_matches(old(seen)@, old(out)@),
        dfs_order_ok(pool, old(out)@, starts),
        starts.contains(cur) || exists|i: int|
            0 <= i < old(out)@.len() && pool.points_to(old(out)@[i] as int, cur as int),
    ensures
        final(seen)@.len() == pool.len(),
        seen_matches(final(seen)@, final(out)@),
        dfs_order_ok(pool, final(out)@, starts),
        final(seen)@[cur as int],
        forall|q: int| 0 <= q < old(seen)@.len() && old(seen)@[q] ==> final(seen)@[q],
        count_false(final(seen)@) <= count_false(old(seen)@),
        old(out)@.len() <= final(out)@.len(),
        final(out)@.subrange(0, old(out)@.len() as int) == old(out)@,
        !old(seen)@[cur as int] ==> final(out)@.len() > old(out)@.len() && final(out)@[old(
            out,
        )@.len() as int] == cur,
        forall|j: int, k: u32|
            old(out)@.len() <= j < final(out)@.len() && #[trigger] pool.at(
                final(out)@[j] as int,
            ).refs().contains_key(k) ==> final(out)@.contains(
                pool.at(final(out)@[j] as int).refs()[k],
            ),
        final(out)@ == old(out)@ + dfs(pool, cur, old(seen)@, fuel).0,
        final(seen)@ == dfs(pool, cur, old(seen)@, fuel).1,
    decreases count_false(old(seen)@),
{
    if seen[cur] {
        proof {
            assert(out@.subrange(0, out@.len() as int) =~= out@);
        }
        return ;
    }
    let ghost seen0 = seen@;
    let ghost out0 = out@;
    seen.set(cur, true);
    out.push(cur);
    proof {
        assert(out@ == out0.push(cur));
        lemma_count_false_flip(seen0, seen@, cur as int);
        assert forall|q: int| 0 <= q < seen@.len() implies (#[trigger] seen@[q] <==> out@.contains(
            q as StructRef,
        )) by {
            if q == cur {
                assert(out@[out0.len() as int] == cur);
            } else {
                if out@.contains(q as StructRef) {
                    let j = choose|j: int| 0 <= j < out@.len() && out@[j] == q as StructRef;
                    assert(out@[out0.len() as int] == cur);
                    assert(q < seen@.len());
                    assert(seen@.len() == seen.len());
                    assert((q as StructRef) as int == q);
                    assert(j != out0.len());
                    assert(out@[j] == out0[j]);
                    assert(out0[j] == q as StructRef);
                }
                if out0.contains(q as StructRef) {
                    let j = choose|j: int| 0 <= j < out0.len() && out0[j] == q as StructRef;
                    assert(out@[j] == out0[j]);
                }
            }
        }
        assert(!out0.contains(cur));
        assert forall|j: int| 0 <= j < out@.len() implies starts.contains(#[trigger] out@[j])
            || exists|i: int| 0 <= i < j && pool.points_to(out@[i] as int, out@[j] as int) by {
            if j < out0.len() {
                assert(out@[j] == out0[j]);
                if !starts.contains(out0[j]) {
                    let i = choose|i: int|
                        0 <= i < j && pool.points_to(out0[i] as int, out0[j] as int);
                    assert(out@[i] == out0[i]);
                }
            } else {
                if !starts.contains(cur) {
                    let i = choose|i: int|
                        0 <= i < out0.len() && pool.points_to(out0[i] as int, cur as int);
                    assert(out@[i] == out0[i]);
                }
            }
        }
    }
    let ghost pos = out0.len() as int;
    let s = pool.get(cur);
    assert(s.wf());
    proof {
        s.lemma_ref_pairs();
    }
    let refs = s.references();
    let n = refs.len();
    let ghost cs = children_of(pool, cur as int);
    let ghost goal = dfs_list(pool, cs, seen0.update(cur as int, true), (fuel - 1) as nat);
    proof {
        assert(seen@ =~= seen0.update(cur as int, true));
        assert(cs.skip(0) =~= cs);
        assert(out@.subrange(pos + 1, out@.len() as int) =~= Seq::<StructRef>::empty());
    }
    let mut i: usize = 0;
    while i < n
        invariant
            pool.wf(),
            cur < pool.len(),
            *s == pool.at(cur as int),
            s.wf(),
            refs.pairs() == s.ref_pairs(),
            n == s.ref_pairs().len(),
            i <= n,
            seen@.len() == pool.len(),
            seen_matches(seen@, out@),
            dfs_order_ok(pool, out@, starts),
            seen@[cur as int],
            forall|q: int| 0 <= q < seen0.len() && seen0[q] ==> seen@[q],
            count_false(seen@) < count_false(seen0),
            seen0 == old(seen)@,
            seen0.len() == pool.len(),
            out0.len() < out@.len(),
            out@.subrange(0, out0.len() as int) == out0,
            out@[pos] == cur,
            pos == out0.len(),
            forall|m: int| 0 <= m < i ==> #[trigger] seen@[s.ref_pairs()[m].1 as int],
            cs == children_of(pool, cur as int),
            cs.len() == n,
            fuel > count_false(seen0),
            goal == dfs_list(pool, cs, seen0.update(cur as int, true), (fuel - 1) as nat),
            goal.0 == out@.subrange(pos + 1, out@.len() as int) + dfs_list(pool, cs.skip(i as int), seen@, (fuel - 1) as nat).0,
            goal.1 == dfs_list(pool, cs.skip(i as int), seen@, (fuel - 1) as nat).1,
            forall|j: int, k: u32|
                pos < j < out@.len() && #[trigger] pool.at(out@[j] as int).refs().contains_key(k)
                    ==> out@.contains(pool.at(out@[j] as int).refs()[k]),
        decreases n - i,
    {
        let (key, child) = refs.entry(i);
        proof {
            s.lemma_ref_pairs();
            assert(s.ref_pairs()[i as int].0 == key);
            assert(has_key_at(s.ref_pairs(), key));
            assert(s.refs()[s.ref_pairs()[i as int].0] == s.ref_pairs()[i as int].1);
            assert(s.refs().contains_key(key));
            assert(s.refs()[key] == child);
            assert(child < pool.len());
            assert(pool.points_to(out@[pos] as int, child as int));
        }
        let ghost seen1 = seen@;
        let ghost out1 = out@;
        proof {
            assert(cs[i as int] == child);
            assert(cs.skip(i as int)[0] == child);
            assert(cs.skip(i as int).drop_first() =~= cs.skip(i + 1));
        }
        walk(pool, child, seen, out, Ghost(starts), Ghost((fuel - 1) as nat));
        proof {
            let a = dfs(pool, child, seen1, (fuel - 1) as nat);
            assert(out@ == out1 + a.0);
            assert(out@.subrange(pos + 1, out@.len() as int) =~= out1.subrange(pos + 1, out1.len() as int) + a.0);
            lemma_count_false_mono(seen1, seen@);
            assert(seen1.len() == seen0.len());
            assert(forall|q: int| 0 <= q < seen1.len() && seen1[q] ==> seen@[q]);
            assert forall|q: int| 0 <= q < seen0.len() && seen0[q] implies seen@[q] by {
                assert(seen1[q]);
            }
            assert forall|m: int| 0 <= m < i + 1 implies #[trigger] seen@[s.ref_pairs()[m].1 as int] by {
                if m < i {
                    let km = s.ref_pairs()[m].0;
                    assert(has_key_at(s.ref_pairs(), km));
                    assert(s.refs()[s.ref_pairs()[m].0] == s.ref_pairs()[m].1);
                    assert(s.refs().contains_key(km));
                    assert(s.ref_pairs()[m].1 < pool.len());
                    assert(seen1[s.ref_pairs()[m].1 as int]);
                } else {
                    assert(s.ref_pairs()[m].1 == child);
                }
            }
            assert(out@.subrange(0, out0.len() as int) =~= out0) by {
                assert forall|t: int| 0 <= t < out0.len() implies out@[t] == out0[t] by {
                    assert(out@.subrange(0, out1.len() as int)[t] == out1[t]);
                    assert(out1.subrange(0, out0.len() as int)[t] == out0[t]);
                }
            }
            assert(out@[pos] == cur) by {
                assert(out@.subrange(0, out1.len() as int)[pos] == out1[pos]);
            }
            assert forall|j: int, k: u32|
                pos < j < out@.len() && #[trigger] pool.at(out@[j] as int).refs().contains_key(k)
                    implies out@.contains(pool.at(out@[j] as int).refs()[k]) by {
                if j < out1.len() {
                    assert(out@.subrange(0, out1.len() as int)[j] == out1[j]);
                    assert(out1.contains(pool.at(out1[j] as int).refs()[k]));
                    let t = choose|t: int|
                        0 <= t < out1.len() && out1[t] == pool.at(out1[j] as int).refs()[k];
                    assert(out@.subrange(0, out1.len() as int)[t] == out1[t]);
                }
            }
        }
        i = i + 1;
    }
    proof {
        assert(cs.skip(n as int) =~= Seq::<StructRef>::empty());
        assert(out@ =~= out0 + dfs(pool, cur, seen0, fuel).0) by {
            assert(out@ =~= out0.push(cur) + out@.subrange(pos + 1, out@.len() as int)) by {
                assert(out@.subrange(0, out0.len() as int) == out0);
            }
        }
        s.lemma_ref_pairs();
        assert forall|j: int, k: u32|
            pos <= j < out@.len() && #[trigger] pool.at(out@[j] as int).refs().contains_key(k)
                implies out@.contains(pool.at(out@[j] as int).refs()[k]) by {
            if j == pos {
                assert(has_key_at(s.ref_pairs(), k));
                let m = choose|m: int| 0 <= m < s.ref_pairs().len() && s.ref_pairs()[m].0 == k;
                assert(seen@[s.ref_pairs()[m].1 as int]);
            }
        }
    }
}

/// Every struct reachable from `root`, each exactly once, in depth-first
/// pre-order visiting children in ascending pointer offset (`dfs`).
/// Cycles are broken by identity, not by content.
pub fn collect_substructs(pool: &StructPool, root: StructRef) -> (out: Vec<StructRef>)
    requires
        pool.wf(),
        root < pool.len(),
    ensures
        out@.len() >= 1,
        out@[0] == root,
        dfs_order_ok(pool, out@, set![root]),
        closed_under_refs(pool, out@),
        out@ == dfs(pool, root, Seq::new(pool.len(), |q: int| false), (pool.len() + 1) as nat).0,
{
    let mut seen: Vec<bool> = vec![false; pool.len_exec()];
    let mut out: Vec<StructRef> = Vec::new();
    proof {
        assert forall|q: int| 0 <= q < seen@.len() implies (#[trigger] seen@[q] <==> out@.contains(
            q as StructRef,
        )) by {}
    }
    let ghost st = set![root];
    proof {
        lemma_count_false_le(seen@);
        assert(seen@ =~= Seq::new(pool.len(), |q: int| false));
    }
    walk(pool, root, &mut seen, &mut out, Ghost(st), Ghost((pool.len() + 1) as nat));
    proof {
        assert(out@ =~= dfs(pool, root, Seq::new(pool.len(), |q: int| false), (pool.len() + 1) as nat).0);
    }
    out
}
} // verus!
