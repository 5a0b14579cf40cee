//! Typed accessors over the HSD struct layouts: JObj / DObj / MObj /
//! Material / PeDesc / PObj / TObj / Image / Tlut / SObj / JObjDesc.
//!
//! Getters read through a `StructPool`; setters grow a too-short struct to
//! its type's full size first (zero-filled), then write.  Floating-point
//! fields are stored as IEEE-754 bit patterns and are read and written here
//! as their `u32` bits.

use crate::accessor::Accessor;
use crate::be::{be32_bytes, splice};
use crate::error::{HsdError, Result};
use crate::gx::{
    AlphaMap, ColorMap, CoordType, GxTexFilter, GxTexFmt, GxTexMapId, GxTlutFmt, GxWrapMode,
    JObjFlag, MaterialRenderMode, PObjFlag, TObjFlags,
};
use crate::hsd_struct::{string_read, HsdStruct, StructPool, StructRef};
use vstd::prelude::*;

verus! {

/// `s` zero-extended to at least `n` bytes.
pub open spec fn grown(s: Seq<u8>, n: nat) -> Seq<u8> {
    if s.len() < n {
        s + Seq::new((n - s.len()) as nat, |i: int| 0u8)
    } else {
        s
    }
}

/// The references of `s` once it has been grown to at least `n` bytes
/// (growing drops references at or past the new length).
pub open spec fn grown_refs(s: HsdStruct, n: nat) -> Map<u32, StructRef> {
    if s.bytes().len() < n {
        s.refs().restrict(Set::new(|k: u32| k < n as u32))
    } else {
        s.refs()
    }
}

/// A 32-bit setter that grows its struct to `n` bytes, followed by the
/// matching getter, gives back the value written; a 32-bit field that the
/// struct already held and that does not overlap the written one reads as
/// before.
pub proof fn law_set_then_get32(before: HsdStruct, after: HsdStruct, n: nat, off: u32, v: u32, other: u32)
    requires
        off + 4 <= n,
        after.bytes() == splice(grown(before.bytes(), n), off as int, be32_bytes(v)),
    ensures
        after.u32_field(off) == Ok::<u32, HsdError>(v),
        other + 4 <= before.bytes().len() && (other + 4 <= off || off + 4 <= other) ==> after.u32_field(other)
            == before.u32_field(other),
{
    let g = grown(before.bytes(), n);
    assert(g.len() >= n);
    crate::be::lemma_read_after_write32(g, off as int, v);
    if other + 4 <= before.bytes().len() && (other + 4 <= off || off + 4 <= other) {
        let o = other as int;
        assert(forall|k: int| 0 <= k < before.bytes().len() ==> g[k] == before.bytes()[k]);
        assert(after.bytes()[o] == before.bytes()[o]);
        assert(after.bytes()[o + 1] == before.bytes()[o + 1]);
        assert(after.bytes()[o + 2] == before.bytes()[o + 2]);
        assert(after.bytes()[o + 3] == before.bytes()[o + 3]);
    }
}

/// `m` with the reference at `k` set to `t` (removed when `None`).
pub open spec fn with_ref(m: Map<u32, StructRef>, k: u32, t: Option<StructRef>) -> Map<
    u32,
    StructRef,
> {
    match t {
        Some(x) => m.insert(k, x),
        None => m.remove(k),
    }
}

/// `r` with its success value mapped through `f`.
pub open spec fn res_map<A, B>(r: Result<A>, f: spec_fn(A) -> B) -> Result<B> {
    match r {
        Ok(a) => Ok(f(a)),
        Err(e) => Err(e),
    }
}

/// `n` zero bytes.
pub open spec fn zeros(n: nat) -> Seq<u8> {
    Seq::new(n, |i: int| 0u8)
}

/// Grow `s` to `n` bytes if it is shorter.
pub fn ensure_size(s: &mut HsdStruct, n: usize)
    requires
        old(s).wf(),
    ensures
        final(s).wf(),
        final(s).bytes() == grown(old(s).bytes(), n as nat),
        final(s).refs() == grown_refs(*old(s), n as nat),
        final(s).same_flags(&old(s)),
{
    if s.len() < n {
        let ghost b = s.bytes();
        s.resize(n);
        proof {
            assert(s.bytes() =~= grown(b, n as nat));
        }
    }
}

/// Write big-endian `v` at `off` after growing to `n` bytes.
fn put_u32(pool: &mut StructPool, r: StructRef, n: usize, off: u32, v: u32)
    requires
        old(pool).wf(),
        r < old(pool).len(),
        off + 4 <= n,
    ensures
        final(pool).wf(),
        final(pool).same_except(&old(pool), r as int),
        final(pool).at(r as int).bytes() == splice(
            grown(old(pool).at(r as int).bytes(), n as nat),
            off as int,
            be32_bytes(v),
        ),
        final(pool).at(r as int).refs() == grown_refs(old(pool).at(r as int), n as nat),
        final(pool).at(r as int).same_flags(&old(pool).at(r as int)),
{
    let mut s = pool.take(r);
    ensure_size(&mut s, n);
    let _ = s.set_u32(off, v);
    pool.put(r, s);
}

/// Write byte `v` at `off` after growing to `n` bytes.
fn put_u8(pool: &mut StructPool, r: StructRef, n: usize, off: u32, v: u8)
    requires
        old(pool).wf(),
        r < old(pool).len(),
        off < n,
    ensures
        final(pool).wf(),
        final(pool).same_except(&old(pool), r as int),
        final(pool).at(r as int).bytes() == grown(old(pool).at(r as int).bytes(), n as nat).update(
            off as int,
            v,
        ),
        final(pool).at(r as int).refs() == grown_refs(old(pool).at(r as int), n as nat),
        final(pool).at(r as int).same_flags(&old(pool).at(r as int)),
{
    let mut s = pool.take(r);
    ensure_size(&mut s, n);
    let _ = s.set_byte(off, v);
    pool.put(r, s);
}

/// Set the reference at `off` after growing to `n` bytes.
fn put_ref(pool: &mut StructPool, r: StructRef, n: usize, off: u32, t: Option<StructRef>)
    requires
        old(pool).wf(),
        r < old(pool).len(),
        t matches Some(x) ==> x < old(pool).len(),
    ensures
        final(pool).wf(),
        final(pool).same_except(&old(pool), r as int),
        final(pool).at(r as int).bytes() == grown(old(pool).at(r as int).bytes(), n as nat),
        final(pool).at(r as int).refs() == with_ref(
            grown_refs(old(pool).at(r as int), n as nat),
            off,
            t,
        ),
        final(pool).at(r as int).same_flags(&old(pool).at(r as int)),
{
    let ghost len = pool.len();
    let mut s = pool.take(r);
    ensure_size(&mut s, n);
    s.set_reference(off, t);
    proof {
        assert forall|k: u32| #[trigger] s.refs().contains_key(k) implies s.refs()[k] < len by {
            if k != off {
                assert(old(pool).at(r as int).refs().contains_key(k));
            }
        }
    }
    pool.put(r, s);
}

/// A fresh zero-filled struct of `n` bytes added to `pool`.
fn alloc_zeroed(pool: &mut StructPool, n: usize) -> (r: StructRef)
    requires
        old(pool).wf(),
    ensures
        r == old(pool).len(),
        final(pool).wf(),
        final(pool).extends(&old(pool)),
        final(pool).at(r as int).bytes() == zeros(n as nat),
        final(pool).at(r as int).refs() == Map::<u32, StructRef>::empty(),
        final(pool).at(r as int).default_flags(),
{
    let s = HsdStruct::with_capacity(n);
    s.into_ref(pool)
}


/// HSD_JOBJ (TrimmedSize 0x40): one joint of the scene hierarchy.
#[derive(Clone, Copy, Debug, PartialEq, Eq, Structural)]
pub struct JObj(pub StructRef);

impl Accessor for JObj {
    open spec fn struct_ref(&self) -> StructRef {
        self.0
    }

    fn from_struct(s: StructRef) -> (a: Self) {
        JObj(s)
    }

    fn as_struct(&self) -> (r: &StructRef) {
        &self.0
    }
}

impl JObj {
    /// The class name string referenced at 0x00.
    pub fn class_name(&self, pool: &StructPool) -> (r: Result<Option<String>>)
        requires
            pool.wf(),
            self.0 < pool.len(),
        ensures
            string_read(pool, pool.at(self.0 as int), 0x00, r),
    {
        pool.get(self.0).get_string(pool, 0x00)
    }

    /// `JOBJ_FLAG` bits at 0x04.
    pub fn flags(&self, pool: &StructPool) -> (r: Result<JObjFlag>)
        requires
            pool.wf(),
            self.0 < pool.len(),
        ensures
            r == res_map(pool.at(self.0 as int).u32_field(0x04), |v: u32| JObjFlag(v)),
    {
        match pool.get(self.0).get_u32(0x04) {
            Ok(v) => Ok(JObjFlag::from_bits_retain(v)),
            Err(e) => Err(e),
        }
    }

    /// First child joint (0x08).
    pub fn child(&self, pool: &StructPool) -> (r: Option<JObj>)
        requires
            pool.wf(),
            self.0 < pool.len(),
        ensures
            r == (match pool.at(self.0 as int).ref_at(0x08) {
                Some(x) => Some(JObj(x)),
                None => None,
            }),
            r matches Some(t) ==> t.0 < pool.len(),
    {
        assert(pool.at(self.0 as int).wf() && pool.at(self.0 as int).refs_below(pool.len()));
        match pool.get(self.0).get_reference(0x08) {
            Some(x) => Some(JObj(x)),
            None => None,
        }
    }

    /// Next sibling joint (0x0C).
    pub fn next(&self, pool: &StructPool) -> (r: Option<JObj>)
        requires
            pool.wf(),
            self.0 < pool.len(),
        ensures
            r == (match pool.at(self.0 as int).ref_at(0x0C) {
                Some(x) => Some(JObj(x)),
                None => None,
            }),
            r matches Some(t) ==> t.0 < pool.len(),
    {
        assert(pool.at(self.0 as int).wf() && pool.at(self.0 as int).refs_below(pool.len()));
        match pool.get(self.0).get_reference(0x0C) {
            Some(x) => Some(JObj(x)),
            None => None,
        }
    }

    /// The DObj at 0x10 — only when neither SPLINE nor PTCL is set;
    /// otherwise the slot holds a spline / particle payload and there is no
    /// DObj.
    pub fn dobj(&self, pool: &StructPool) -> (r: Result<Option<DObj>>)
        requires
            pool.wf(),
            self.0 < pool.len(),
        ensures
            match pool.at(self.0 as int).u32_field(0x04) {
                Err(e) => r == Err::<Option<DObj>, HsdError>(e),
                Ok(f) => if f & (JObjFlag::SPLINE | JObjFlag::PTCL) != 0 {
                    r == Ok::<Option<DObj>, HsdError>(None)
                } else {
                    r == Ok::<Option<DObj>, HsdError>(
                        match pool.at(self.0 as int).ref_at(0x10) {
                            Some(x) => Some(DObj(x)),
                            None => None,
                        },
                    )
                },
            },
            r matches Ok(Some(d)) ==> d.0 < pool.len(),
    {
        let f = self.flags(pool)?;
        if f.intersects(JObjFlag::from_bits_retain(JObjFlag::SPLINE | JObjFlag::PTCL)) {
            return Ok(None);
        }
        assert(pool.at(self.0 as int).wf() && pool.at(self.0 as int).refs_below(pool.len()));
        Ok(
            match pool.get(self.0).get_reference(0x10) {
                Some(x) => Some(DObj(x)),
                None => None,
            },
        )
    }

    /// Write the `JOBJ_FLAG` bits at 0x04.
    pub fn set_flags(&self, pool: &mut StructPool, flags: JObjFlag) -> (r: Result<()>)
        requires
            old(pool).wf(),
            self.0 < old(pool).len(),
        ensures
            r is Ok,
            final(pool).wf(),
            final(pool).same_except(&old(pool), self.0 as int),
            final(pool).at(self.0 as int).bytes() == splice(
                grown(old(pool).at(self.0 as int).bytes(), 0x40),
                0x04,
                be32_bytes(flags.0),
            ),
            final(pool).at(self.0 as int).refs() == grown_refs(old(pool).at(self.0 as int), 0x40),
            final(pool).at(self.0 as int).same_flags(&old(pool).at(self.0 as int)),
    {
        put_u32(pool, self.0, 0x40, 0x04, flags.bits());
        Ok(())
    }

    /// Set / clear the first child (0x08).
    pub fn set_child(&self, pool: &mut StructPool, child: Option<JObj>)
        requires
            old(pool).wf(),
            self.0 < old(pool).len(),
            child matches Some(t) ==> t.0 < old(pool).len(),
        ensures
            final(pool).wf(),
            final(pool).same_except(&old(pool), self.0 as int),
            final(pool).at(self.0 as int).bytes() == grown(old(pool).at(self.0 as int).bytes(), 0x40),
            final(pool).at(self.0 as int).refs() == with_ref(
                grown_refs(old(pool).at(self.0 as int), 0x40),
                0x08,
                match child {
                    Some(t) => Some(t.0),
                    None => None,
                },
            ),
            final(pool).at(self.0 as int).same_flags(&old(pool).at(self.0 as int)),
    {
        let t = match child {
            Some(a) => Some(a.0),
            None => None,
        };
        put_ref(pool, self.0, 0x40, 0x08, t);
    }

    /// Set / clear the next sibling (0x0C).
    pub fn set_next(&self, pool: &mut StructPool, next: Option<JObj>)
        requires
            old(pool).wf(),
            self.0 < old(pool).len(),
            next matches Some(t) ==> t.0 < old(pool).len(),
        ensures
            final(pool).wf(),
            final(pool).same_except(&old(pool), self.0 as int),
            final(pool).at(self.0 as int).bytes() == grown(old(pool).at(self.0 as int).bytes(), 0x40),
            final(pool).at(self.0 as int).refs() == with_ref(
                grown_refs(old(pool).at(self.0 as int), 0x40),
                0x0C,
                match next {
                    Some(t) => Some(t.0),
                    None => None,
                },
            ),
            final(pool).at(self.0 as int).same_flags(&old(pool).at(self.0 as int)),
    {
        let t = match next {
            Some(a) => Some(a.0),
            None => None,
        };
        put_ref(pool, self.0, 0x40, 0x0C, t);
    }

    /// X rotation (`f32` bits at 0x14).
    pub fn rx(&self, pool: &StructPool) -> (r: Result<u32>)
        requires
            pool.wf(),
            self.0 < pool.len(),
        ensures
            r == pool.at(self.0 as int).u32_field(0x14),
    {
        pool.get(self.0).get_u32(0x14)
    }

    /// Y rotation (`f32` bits at 0x18).
    pub fn ry(&self, pool: &StructPool) -> (r: Result<u32>)
        requires
            pool.wf(),
            self.0 < pool.len(),
        ensures
            r == pool.at(self.0 as int).u32_field(0x18),
    {
        pool.get(self.0).get_u32(0x18)
    }

    /// Z rotation (`f32` bits at 0x1C).
    pub fn rz(&self, pool: &StructPool) -> (r: Result<u32>)
        requires
            pool.wf(),
            self.0 < pool.len(),
        ensures
            r == pool.at(self.0 as int).u32_field(0x1C),
    {
        pool.get(self.0).get_u32(0x1C)
    }

    /// X scale (`f32` bits at 0x20).
    pub fn sx(&self, pool: &StructPool) -> (r: Result<u32>)
        requires
            pool.wf(),
            self.0 < pool.len(),
        ensures
            r == pool.at(self.0 as int).u32_field(0x20),
    {
        pool.get(self.0).get_u32(0x20)
    }

    /// Y scale (`f32` bits at 0x24).
    pub fn sy(&self, pool: &StructPool) -> (r: Result<u32>)
        requires
            pool.wf(),
            self.0 < pool.len(),
        ensures
            r == pool.at(self.0 as int).u32_field(0x24),
    {
        pool.get(self.0).get_u32(0x24)
    }

    /// Z scale (`f32` bits at 0x28).
    pub fn sz(&self, pool: &StructPool) -> (r: Result<u32>)
        requires
            pool.wf(),
            self.0 < pool.len(),
        ensures
            r == pool.at(self.0 as int).u32_field(0x28),
    {
        pool.get(self.0).get_u32(0x28)
    }

    /// X translation (`f32` bits at 0x2C).
    pub fn tx(&self, pool: &StructPool) -> (r: Result<u32>)
        requires
            pool.wf(),
            self.0 < pool.len(),
        ensures
            r == pool.at(self.0 as int).u32_field(0x2C),
    {
        pool.get(self.0).get_u32(0x2C)
    }

    /// Y translation (`f32` bits at 0x30).
    pub fn ty(&self, pool: &StructPool) -> (r: Result<u32>)
        requires
            pool.wf(),
            self.0 < pool.len(),
        ensures
            r == pool.at(self.0 as int).u32_field(0x30),
    {
        pool.get(self.0).get_u32(0x30)
    }

    /// Z translation (`f32` bits at 0x34).
    pub fn tz(&self, pool: &StructPool) -> (r: Result<u32>)
        requires
            pool.wf(),
            self.0 < pool.len(),
        ensures
            r == pool.at(self.0 as int).u32_field(0x34),
    {
        pool.get(self.0).get_u32(0x34)
    }

    /// Write the x rotation (`f32` bits at 0x14).
    pub fn set_rx(&self, pool: &mut StructPool, v: u32) -> (r: Result<()>)
        requires
            old(pool).wf(),
            self.0 < old(pool).len(),
        ensures
            r is Ok,
            final(pool).wf(),
            final(pool).same_except(&old(pool), self.0 as int),
            final(pool).at(self.0 as int).bytes() == splice(
                grown(old(pool).at(self.0 as int).bytes(), 0x40),
                0x14,
                be32_bytes(v),
            ),
            final(pool).at(self.0 as int).refs() == grown_refs(old(pool).at(self.0 as int), 0x40),
            final(pool).at(self.0 as int).same_flags(&old(pool).at(self.0 as int)),
    {
        put_u32(pool, self.0, 0x40, 0x14, v);
        Ok(())
    }

    /// Write the y rotation (`f32` bits at 0x18).
    pub fn set_ry(&self, pool: &mut StructPool, v: u32) -> (r: Result<()>)
        requires
            old(pool).wf(),
            self.0 < old(pool).len(),
        ensures
            r is Ok,
            final(pool).wf(),
            final(pool).same_except(&old(pool), self.0 as int),
            final(pool).at(self.0 as int).bytes() == splice(
                grown(old(pool).at(self.0 as int).bytes(), 0x40),
                0x18,
                be32_bytes(v),
            ),
            final(pool).at(self.0 as int).refs() == grown_refs(old(pool).at(self.0 as int), 0x40),
            final(pool).at(self.0 as int).same_flags(&old(pool).at(self.0 as int)),
    {
        put_u32(pool, self.0, 0x40, 0x18, v);
        Ok(())
    }

    /// Write the z rotation (`f32` bits at 0x1C).
    pub fn set_rz(&self, pool: &mut StructPool, v: u32) -> (r: Result<()>)
        requires
            old(pool).wf(),
            self.0 < old(pool).len(),
        ensures
            r is Ok,
            final(pool).wf(),
            final(pool).same_except(&old(pool), self.0 as int),
            final(pool).at(self.0 as int).bytes() == splice(
                grown(old(pool).at(self.0 as int).bytes(), 0x40),
                0x1C,
                be32_bytes(v),
            ),
            final(pool).at(self.0 as int).refs() == grown_refs(old(pool).at(self.0 as int), 0x40),
            final(pool).at(self.0 as int).same_flags(&old(pool).at(self.0 as int)),
    {
        put_u32(pool, self.0, 0x40, 0x1C, v);
        Ok(())
    }

    /// Write the x scale (`f32` bits at 0x20).
    pub fn set_sx(&self, pool: &mut StructPool, v: u32) -> (r: Result<()>)
        requires
            old(pool).wf(),
            self.0 < old(pool).len(),
        ensures
            r is Ok,
            final(pool).wf(),
            final(pool).same_except(&old(pool), self.0 as int),
            final(pool).at(self.0 as int).bytes() == splice(
                grown(old(pool).at(self.0 as int).bytes(), 0x40),
                0x20,
                be32_bytes(v),
            ),
            final(pool).at(self.0 as int).refs() == grown_refs(old(pool).at(self.0 as int), 0x40),
            final(pool).at(self.0 as int).same_flags(&old(pool).at(self.0 as int)),
    {
        put_u32(pool, self.0, 0x40, 0x20, v);
        Ok(())
    }

    /// Write the y scale (`f32` bits at 0x24).
    pub fn set_sy(&self, pool: &mut StructPool, v: u32) -> (r: Result<()>)
        requires
            old(pool).wf(),
            self.0 < old(pool).len(),
        ensures
            r is Ok,
            final(pool).wf(),
            final(pool).same_except(&old(pool), self.0 as int),
            final(pool).at(self.0 as int).bytes() == splice(
                grown(old(pool).at(self.0 as int).bytes(), 0x40),
                0x24,
                be32_bytes(v),
            ),
            final(pool).at(self.0 as int).refs() == grown_refs(old(pool).at(self.0 as int), 0x40),
            final(pool).at(self.0 as int).same_flags(&old(pool).at(self.0 as int)),
    {
        put_u32(pool, self.0, 0x40, 0x24, v);
        Ok(())
    }

    /// Write the z scale (`f32` bits at 0x28).
    pub fn set_sz(&self, pool: &mut StructPool, v: u32) -> (r: Result<()>)
        requires
            old(pool).wf(),
            self.0 < old(pool).len(),
        ensures
            r is Ok,
            final(pool).wf(),
            final(pool).same_except(&old(pool), self.0 as int),
            final(pool).at(self.0 as int).bytes() == splice(
                grown(old(pool).at(self.0 as int).bytes(), 0x40),
                0x28,
                be32_bytes(v),
            ),
            final(pool).at(self.0 as int).refs() == grown_refs(old(pool).at(self.0 as int), 0x40),
            final(pool).at(self.0 as int).same_flags(&old(pool).at(self.0 as int)),
    {
        put_u32(pool, self.0, 0x40, 0x28, v);
        Ok(())
    }

    /// Write the x translation (`f32` bits at 0x2C).
    pub fn set_tx(&self, pool: &mut StructPool, v: u32) -> (r: Result<()>)
        requires
            old(pool).wf(),
            self.0 < old(pool).len(),
        ensures
            r is Ok,
            final(pool).wf(),
            final(pool).same_except(&old(pool), self.0 as int),
            final(pool).at(self.0 as int).bytes() == splice(
                grown(old(pool).at(self.0 as int).bytes(), 0x40),
                0x2C,
                be32_bytes(v),
            ),
            final(pool).at(self.0 as int).refs() == grown_refs(old(pool).at(self.0 as int), 0x40),
            final(pool).at(self.0 as int).same_flags(&old(pool).at(self.0 as int)),
    {
        put_u32(pool, self.0, 0x40, 0x2C, v);
        Ok(())
    }

    /// Write the y translation (`f32` bits at 0x30).
    pub fn set_ty(&self, pool: &mut StructPool, v: u32) -> (r: Result<()>)
        requires
            old(pool).wf(),
            self.0 < old(pool).len(),
        ensures
            r is Ok,
            final(pool).wf(),
            final(pool).same_except(&old(pool), self.0 as int),
            final(pool).at(self.0 as int).bytes() == splice(
                grown(old(pool).at(self.0 as int).bytes(), 0x40),
                0x30,
                be32_bytes(v),
            ),
            final(pool).at(self.0 as int).refs() == grown_refs(old(pool).at(self.0 as int), 0x40),
            final(pool).at(self.0 as int).same_flags(&old(pool).at(self.0 as int)),
    {
        put_u32(pool, self.0, 0x40, 0x30, v);
        Ok(())
    }

    /// Write the z translation (`f32` bits at 0x34).
    pub fn set_tz(&self, pool: &mut StructPool, v: u32) -> (r: Result<()>)
        requires
            old(pool).wf(),
            self.0 < old(pool).len(),
        ensures
            r is Ok,
            final(pool).wf(),
            final(pool).same_except(&old(pool), self.0 as int),
            final(pool).at(self.0 as int).bytes() == splice(
                grown(old(pool).at(self.0 as int).bytes(), 0x40),
                0x34,
                be32_bytes(v),
            ),
            final(pool).at(self.0 as int).refs() == grown_refs(old(pool).at(self.0 as int), 0x40),
            final(pool).at(self.0 as int).same_flags(&old(pool).at(self.0 as int)),
    {
        put_u32(pool, self.0, 0x40, 0x34, v);
        Ok(())
    }

    /// Set / clear the DObj at 0x10, clearing the SPLINE and PTCL flags
    /// (those bits use the same slot as a tagged-union payload).
    pub fn set_dobj(&self, pool: &mut StructPool, dobj: Option<DObj>) -> (r: Result<()>)
        requires
            old(pool).wf(),
            self.0 < old(pool).len(),
            dobj matches Some(t) ==> t.0 < old(pool).len(),
        ensures
            r is Ok,
            final(pool).wf(),
            final(pool).same_except(&old(pool), self.0 as int),
            final(pool).at(self.0 as int).bytes() == ({
                let g = grown(old(pool).at(self.0 as int).bytes(), 0x40);
                splice(
                    g,
                    0x04,
                    be32_bytes(crate::be::be32(g, 0x04) & !(JObjFlag::SPLINE | JObjFlag::PTCL)),
                )
            }),
            final(pool).at(self.0 as int).refs() == with_ref(
                grown_refs(old(pool).at(self.0 as int), 0x40),
                0x10,
                match dobj {
                    Some(t) => Some(t.0),
                    None => None,
                },
            ),
            final(pool).at(self.0 as int).same_flags(&old(pool).at(self.0 as int)),
    {
        let t = match dobj {
            Some(d) => Some(d.0),
            None => None,
        };
        put_ref(pool, self.0, 0x40, 0x10, t);
        let f = self.flags(pool)?;
        let cleared = f.bits() & !(JObjFlag::SPLINE | JObjFlag::PTCL);
        self.set_flags(pool, JObjFlag::from_bits_retain(cleared))
    }

    /// A brand-new HSD_JOBJ: 0x40 bytes, scale = (1, 1, 1) (the IEEE-754
    /// bits 0x3F800000 at 0x20 / 0x24 / 0x28), everything else zero.
    pub fn allocate_default(pool: &mut StructPool) -> (j: Self)
        requires
            old(pool).wf(),
        ensures
            j.0 == old(pool).len(),
            final(pool).wf(),
            final(pool).extends(&old(pool)),
            final(pool).at(j.0 as int).bytes() == jobj_default_bytes(),
            final(pool).at(j.0 as int).refs() == Map::<u32, StructRef>::empty(),
            final(pool).at(j.0 as int).default_flags(),
    {
        let j = JObj(alloc_zeroed(pool, 0x40));
        put_u32(pool, j.0, 0x40, 0x20, 0x3F80_0000);
        put_u32(pool, j.0, 0x40, 0x24, 0x3F80_0000);
        put_u32(pool, j.0, 0x40, 0x28, 0x3F80_0000);
        proof {
            assert(pool.at(j.0 as int).bytes() =~= jobj_default_bytes());
        }
        j
    }
}

/// The bytes of a fresh HSD_JOBJ: zero but for scale = 1.0 on all axes.
pub open spec fn jobj_default_bytes() -> Seq<u8> {
    Seq::new(
        0x40,
        |i: int|
            if i == 0x20 || i == 0x24 || i == 0x28 {
                0x3Fu8
            } else if i == 0x21 || i == 0x25 || i == 0x29 {
                0x80u8
            } else {
                0u8
            },
    )
}


/// HSD_DOBJ (TrimmedSize 0x10): a display object — material + polygons.
#[derive(Clone, Copy, Debug, PartialEq, Eq, Structural)]
pub struct DObj(pub StructRef);

impl Accessor for DObj {
    open spec fn struct_ref(&self) -> StructRef {
        self.0
    }

    fn from_struct(s: StructRef) -> (a: Self) {
        DObj(s)
    }

    fn as_struct(&self) -> (r: &StructRef) {
        &self.0
    }
}

impl DObj {
    /// The class name string referenced at 0x00.
    pub fn class_name(&self, pool: &StructPool) -> (r: Result<Option<String>>)
        requires
            pool.wf(),
            self.0 < pool.len(),
        ensures
            string_read(pool, pool.at(self.0 as int), 0x00, r),
    {
        pool.get(self.0).get_string(pool, 0x00)
    }

    /// Next DObj (0x04).
    pub fn next(&self, pool: &StructPool) -> (r: Option<DObj>)
        requires
            pool.wf(),
            self.0 < pool.len(),
        ensures
            r == (match pool.at(self.0 as int).ref_at(0x04) {
                Some(x) => Some(DObj(x)),
                None => None,
            }),
            r matches Some(t) ==> t.0 < pool.len(),
    {
        assert(pool.at(self.0 as int).wf() && pool.at(self.0 as int).refs_below(pool.len()));
        match pool.get(self.0).get_reference(0x04) {
            Some(x) => Some(DObj(x)),
            None => None,
        }
    }

    /// Material object (0x08).
    pub fn mobj(&self, pool: &StructPool) -> (r: Option<MObj>)
        requires
            pool.wf(),
            self.0 < pool.len(),
        ensures
            r == (match pool.at(self.0 as int).ref_at(0x08) {
                Some(x) => Some(MObj(x)),
                None => None,
            }),
            r matches Some(t) ==> t.0 < pool.len(),
    {
        assert(pool.at(self.0 as int).wf() && pool.at(self.0 as int).refs_below(pool.len()));
        match pool.get(self.0).get_reference(0x08) {
            Some(x) => Some(MObj(x)),
            None => None,
        }
    }

    /// First polygon object (0x0C).
    pub fn pobj(&self, pool: &StructPool) -> (r: Option<PObj>)
        requires
            pool.wf(),
            self.0 < pool.len(),
        ensures
            r == (match pool.at(self.0 as int).ref_at(0x0C) {
                Some(x) => Some(PObj(x)),
                None => None,
            }),
            r matches Some(t) ==> t.0 < pool.len(),
    {
        assert(pool.at(self.0 as int).wf() && pool.at(self.0 as int).refs_below(pool.len()));
        match pool.get(self.0).get_reference(0x0C) {
            Some(x) => Some(PObj(x)),
            None => None,
        }
    }

    /// A brand-new HSD_DOBJ: 0x10 zero bytes.
    pub fn allocate_default(pool: &mut StructPool) -> (a: Self)
        requires
            old(pool).wf(),
        ensures
            a.0 == old(pool).len(),
            final(pool).wf(),
            final(pool).extends(&old(pool)),
            final(pool).at(a.0 as int).bytes() == zeros(0x10),
            final(pool).at(a.0 as int).refs() == Map::<u32, StructRef>::empty(),
            final(pool).at(a.0 as int).default_flags(),
    {
        DObj(alloc_zeroed(pool, 0x10))
    }

    /// Set / clear the next DObj (0x04).
    pub fn set_next(&self, pool: &mut StructPool, next: Option<DObj>)
        requires
            old(pool).wf(),
            self.0 < old(pool).len(),
            next matches Some(t) ==> t.0 < old(pool).len(),
        ensures
            final(pool).wf(),
            final(pool).same_except(&old(pool), self.0 as int),
            final(pool).at(self.0 as int).bytes() == grown(old(pool).at(self.0 as int).bytes(), 0x10),
            final(pool).at(self.0 as int).refs() == with_ref(
                grown_refs(old(pool).at(self.0 as int), 0x10),
                0x04,
                match next {
                    Some(t) => Some(t.0),
                    None => None,
                },
            ),
            final(pool).at(self.0 as int).same_flags(&old(pool).at(self.0 as int)),
    {
        let t = match next {
            Some(a) => Some(a.0),
            None => None,
        };
        put_ref(pool, self.0, 0x10, 0x04, t);
    }

    /// Set / clear the MObj (0x08).
    pub fn set_mobj(&self, pool: &mut StructPool, mobj: Option<MObj>)
        requires
            old(pool).wf(),
            self.0 < old(pool).len(),
            mobj matches Some(t) ==> t.0 < old(pool).len(),
        ensures
            final(pool).wf(),
            final(pool).same_except(&old(pool), self.0 as int),
            final(pool).at(self.0 as int).bytes() == grown(old(pool).at(self.0 as int).bytes(), 0x10),
            final(pool).at(self.0 as int).refs() == with_ref(
                grown_refs(old(pool).at(self.0 as int), 0x10),
                0x08,
                match mobj {
                    Some(t) => Some(t.0),
                    None => None,
                },
            ),
            final(pool).at(self.0 as int).same_flags(&old(pool).at(self.0 as int)),
    {
        let t = match mobj {
            Some(a) => Some(a.0),
            None => None,
        };
        put_ref(pool, self.0, 0x10, 0x08, t);
    }

    /// Set / clear the PObj (0x0C).
    pub fn set_pobj(&self, pool: &mut StructPool, pobj: Option<PObj>)
        requires
            old(pool).wf(),
            self.0 < old(pool).len(),
            pobj matches Some(t) ==> t.0 < old(pool).len(),
        ensures
            final(pool).wf(),
            final(pool).same_except(&old(pool), self.0 as int),
            final(pool).at(self.0 as int).bytes() == grown(old(pool).at(self.0 as int).bytes(), 0x10),
            final(pool).at(self.0 as int).refs() == with_ref(
                grown_refs(old(pool).at(self.0 as int), 0x10),
                0x0C,
                match pobj {
                    Some(t) => Some(t.0),
                    None => None,
                },
            ),
            final(pool).at(self.0 as int).same_flags(&old(pool).at(self.0 as int)),
    {
        let t = match pobj {
            Some(a) => Some(a.0),
            None => None,
        };
        put_ref(pool, self.0, 0x10, 0x0C, t);
    }

}

/// HSD_MOBJ (TrimmedSize 0x18): render mode, textures, material, PE state.
#[derive(Clone, Copy, Debug, PartialEq, Eq, Structural)]
pub struct MObj(pub StructRef);

impl Accessor for MObj {
    open spec fn struct_ref(&self) -> StructRef {
        self.0
    }

    fn from_struct(s: StructRef) -> (a: Self) {
        MObj(s)
    }

    fn as_struct(&self) -> (r: &StructRef) {
        &self.0
    }
}

impl MObj {
    /// The class name string referenced at 0x00.
    pub fn class_name(&self, pool: &StructPool) -> (r: Result<Option<String>>)
        requires
            pool.wf(),
            self.0 < pool.len(),
        ensures
            string_read(pool, pool.at(self.0 as int), 0x00, r),
    {
        pool.get(self.0).get_string(pool, 0x00)
    }

    /// `RENDER_MODE` bits at 0x04.
    pub fn render_flags(&self, pool: &StructPool) -> (r: Result<MaterialRenderMode>)
        requires
            pool.wf(),
            self.0 < pool.len(),
        ensures
            r == res_map(pool.at(self.0 as int).u32_field(0x04), |v: u32| MaterialRenderMode(v)),
    {
        match pool.get(self.0).get_u32(0x04) {
            Ok(v) => Ok(MaterialRenderMode::from_bits_retain(v)),
            Err(e) => Err(e),
        }
    }

    /// First texture object (0x08).
    pub fn textures(&self, pool: &StructPool) -> (r: Option<TObj>)
        requires
            pool.wf(),
            self.0 < pool.len(),
        ensures
            r == (match pool.at(self.0 as int).ref_at(0x08) {
                Some(x) => Some(TObj(x)),
                None => None,
            }),
            r matches Some(t) ==> t.0 < pool.len(),
    {
        assert(pool.at(self.0 as int).wf() && pool.at(self.0 as int).refs_below(pool.len()));
        match pool.get(self.0).get_reference(0x08) {
            Some(x) => Some(TObj(x)),
            None => None,
        }
    }

    /// Material colours (0x0C).
    pub fn material(&self, pool: &StructPool) -> (r: Option<Material>)
        requires
            pool.wf(),
            self.0 < pool.len(),
        ensures
            r == (match pool.at(self.0 as int).ref_at(0x0C) {
                Some(x) => Some(Material(x)),
                None => None,
            }),
            r matches Some(t) ==> t.0 < pool.len(),
    {
        assert(pool.at(self.0 as int).wf() && pool.at(self.0 as int).refs_below(pool.len()));
        match pool.get(self.0).get_reference(0x0C) {
            Some(x) => Some(Material(x)),
            None => None,
        }
    }

    /// Pixel-engine descriptor (0x14).
    pub fn pe_desc(&self, pool: &StructPool) -> (r: Option<PeDesc>)
        requires
            pool.wf(),
            self.0 < pool.len(),
        ensures
            r == (match pool.at(self.0 as int).ref_at(0x14) {
                Some(x) => Some(PeDesc(x)),
                None => None,
            }),
            r matches Some(t) ==> t.0 < pool.len(),
    {
        assert(pool.at(self.0 as int).wf() && pool.at(self.0 as int).refs_below(pool.len()));
        match pool.get(self.0).get_reference(0x14) {
            Some(x) => Some(PeDesc(x)),
            None => None,
        }
    }

    /// A brand-new HSD_MOBJ: 0x18 zero bytes, nothing attached.
    pub fn allocate_default(pool: &mut StructPool) -> (a: Self)
        requires
            old(pool).wf(),
        ensures
            a.0 == old(pool).len(),
            final(pool).wf(),
            final(pool).extends(&old(pool)),
            final(pool).at(a.0 as int).bytes() == zeros(0x18),
            final(pool).at(a.0 as int).refs() == Map::<u32, StructRef>::empty(),
            final(pool).at(a.0 as int).default_flags(),
    {
        MObj(alloc_zeroed(pool, 0x18))
    }

    /// Write the `RENDER_MODE` bits at 0x04.
    pub fn set_render_flags(&self, pool: &mut StructPool, flags: MaterialRenderMode) -> (r: Result<()>)
        requires
            old(pool).wf(),
            self.0 < old(pool).len(),
        ensures
            r is Ok,
            final(pool).wf(),
            final(pool).same_except(&old(pool), self.0 as int),
            final(pool).at(self.0 as int).bytes() == splice(
                grown(old(pool).at(self.0 as int).bytes(), 0x18),
                0x04,
                be32_bytes(flags.0),
            ),
            final(pool).at(self.0 as int).refs() == grown_refs(old(pool).at(self.0 as int), 0x18),
            final(pool).at(self.0 as int).same_flags(&old(pool).at(self.0 as int)),
    {
        put_u32(pool, self.0, 0x18, 0x04, flags.bits());
        Ok(())
    }

    /// Set / clear the texture chain (0x08).
    pub fn set_textures(&self, pool: &mut StructPool, textures: Option<TObj>)
        requires
            old(pool).wf(),
            self.0 < old(pool).len(),
            textures matches Some(t) ==> t.0 < old(pool).len(),
        ensures
            final(pool).wf(),
            final(pool).same_except(&old(pool), self.0 as int),
            final(pool).at(self.0 as int).bytes() == grown(old(pool).at(self.0 as int).bytes(), 0x18),
            final(pool).at(self.0 as int).refs() == with_ref(
                grown_refs(old(pool).at(self.0 as int), 0x18),
                0x08,
                match textures {
                    Some(t) => Some(t.0),
                    None => None,
                },
            ),
            final(pool).at(self.0 as int).same_flags(&old(pool).at(self.0 as int)),
    {
        let t = match textures {
            Some(a) => Some(a.0),
            None => None,
        };
        put_ref(pool, self.0, 0x18, 0x08, t);
    }

    /// Set / clear the material (0x0C).
    pub fn set_material(&self, pool: &mut StructPool, material: Option<Material>)
        requires
            old(pool).wf(),
            self.0 < old(pool).len(),
            material matches Some(t) ==> t.0 < old(pool).len(),
        ensures
            final(pool).wf(),
            final(pool).same_except(&old(pool), self.0 as int),
            final(pool).at(self.0 as int).bytes() == grown(old(pool).at(self.0 as int).bytes(), 0x18),
            final(pool).at(self.0 as int).refs() == with_ref(
                grown_refs(old(pool).at(self.0 as int), 0x18),
                0x0C,
                match material {
                    Some(t) => Some(t.0),
                    None => None,
                },
            ),
            final(pool).at(self.0 as int).same_flags(&old(pool).at(self.0 as int)),
    {
        let t = match material {
            Some(a) => Some(a.0),
            None => None,
        };
        put_ref(pool, self.0, 0x18, 0x0C, t);
    }

    /// Set / clear the PE descriptor (0x14).
    pub fn set_pe_desc(&self, pool: &mut StructPool, pe: Option<PeDesc>)
        requires
            old(pool).wf(),
            self.0 < old(pool).len(),
            pe matches Some(t) ==> t.0 < old(pool).len(),
        ensures
            final(pool).wf(),
            final(pool).same_except(&old(pool), self.0 as int),
            final(pool).at(self.0 as int).bytes() == grown(old(pool).at(self.0 as int).bytes(), 0x18),
            final(pool).at(self.0 as int).refs() == with_ref(
                grown_refs(old(pool).at(self.0 as int), 0x18),
                0x14,
                match pe {
                    Some(t) => Some(t.0),
                    None => None,
                },
            ),
            final(pool).at(self.0 as int).same_flags(&old(pool).at(self.0 as int)),
    {
        let t = match pe {
            Some(a) => Some(a.0),
            None => None,
        };
        put_ref(pool, self.0, 0x18, 0x14, t);
    }

    /// "Unlit single-color" preset: render flags `CONSTANT | DIFFUSE`, a
    /// fresh `Material` with diffuse RGBA8 = (r, g, b, a), alpha = 1.0
    /// (bits 0x3F800000) and shininess = 50.0 (bits 0x42480000); no
    /// textures, no PE descriptor.
    pub fn allocate_unlit_color(pool: &mut StructPool, r: u8, g: u8, b: u8, a: u8) -> (m: Self)
        requires
            old(pool).wf(),
        ensures
            final(pool).wf(),
            final(pool).len() == old(pool).len() + 2,
            forall|q: int| 0 <= q < old(pool).len() ==> final(pool).at(q) == old(pool).at(q),
            m.0 == old(pool).len(),
            final(pool).at(m.0 as int).bytes() == splice(
                zeros(0x18),
                4,
                be32_bytes(MaterialRenderMode::CONSTANT | MaterialRenderMode::DIFFUSE),
            ),
            final(pool).at(m.0 as int).refs() == Map::<u32, StructRef>::empty().insert(
                0x0C,
                (m.0 + 1) as StructRef,
            ),
            final(pool).at(m.0 + 1).bytes() == unlit_material_bytes(r, g, b, a),
            final(pool).at(m.0 + 1).refs() == Map::<u32, StructRef>::empty(),
    {
        let mobj = Self::allocate_default(pool);
        let _ = mobj.set_render_flags(
            pool,
            MaterialRenderMode::from_bits_retain(
                MaterialRenderMode::CONSTANT | MaterialRenderMode::DIFFUSE,
            ),
        );
        let mat = Material::allocate_default(pool);
        let _ = mat.set_dif_rgba(pool, [r, g, b, a]);
        put_u32(pool, mat.0, 0x14, 0x0C, 0x3F80_0000);
        put_u32(pool, mat.0, 0x14, 0x10, 0x4248_0000);
        mobj.set_material(pool, Some(mat));
        proof {
            assert(pool.at(mat.0 as int).bytes() =~= unlit_material_bytes(r, g, b, a));
            assert(pool.at(mobj.0 as int).refs() =~= Map::<u32, StructRef>::empty().insert(
                0x0C,
                mat.0,
            ));
        }
        mobj
    }
}

/// The bytes of the unlit preset's material: diffuse (r, g, b, a), alpha
/// 1.0, shininess 50.0, the rest zero.
pub open spec fn unlit_material_bytes(r: u8, g: u8, b: u8, a: u8) -> Seq<u8> {
    Seq::new(
        0x14,
        |i: int|
            if i == 4 {
                r
            } else if i == 5 {
                g
            } else if i == 6 {
                b
            } else if i == 7 {
                a
            } else if i == 0x0C {
                0x3Fu8
            } else if i == 0x0D {
                0x80u8
            } else if i == 0x10 {
                0x42u8
            } else if i == 0x11 {
                0x48u8
            } else {
                0u8
            },
    )
}


/// HSD_Material (TrimmedSize 0x14): ambient / diffuse / specular RGBA8, alpha, shininess.
#[derive(Clone, Copy, Debug, PartialEq, Eq, Structural)]
pub struct Material(pub StructRef);

impl Accessor for Material {
    open spec fn struct_ref(&self) -> StructRef {
        self.0
    }

    fn from_struct(s: StructRef) -> (a: Self) {
        Material(s)
    }

    fn as_struct(&self) -> (r: &StructRef) {
        &self.0
    }
}

impl Material {
    /// Ambient colour (0x00..0x04).
    pub fn amb_rgba(&self, pool: &StructPool) -> (r: Result<[u8; 4]>)
        requires
            pool.wf(),
            self.0 < pool.len(),
        ensures
            pool.at(self.0 as int).fits(0x03, 1) ==> (r matches Ok(c) && c@ == pool.at(self.0 as int).bytes().subrange(
                0x00,
                0x04,
            )),
            !pool.at(self.0 as int).fits(0x03, 1) ==> r is Err,
    {
        let s = pool.get(self.0);
        let c0 = s.get_byte(0x00)?;
        let c1 = s.get_byte(0x01)?;
        let c2 = s.get_byte(0x02)?;
        let c3 = s.get_byte(0x03)?;
        let c = [c0, c1, c2, c3];
        proof {
            assert(c@ =~= pool.at(self.0 as int).bytes().subrange(0x00, 0x04));
        }
        Ok(c)
    }

    /// Diffuse colour (0x04..0x08).
    pub fn dif_rgba(&self, pool: &StructPool) -> (r: Result<[u8; 4]>)
        requires
            pool.wf(),
            self.0 < pool.len(),
        ensures
            pool.at(self.0 as int).fits(0x07, 1) ==> (r matches Ok(c) && c@ == pool.at(self.0 as int).bytes().subrange(
                0x04,
                0x08,
            )),
            !pool.at(self.0 as int).fits(0x07, 1) ==> r is Err,
    {
        let s = pool.get(self.0);
        let c0 = s.get_byte(0x04)?;
        let c1 = s.get_byte(0x05)?;
        let c2 = s.get_byte(0x06)?;
        let c3 = s.get_byte(0x07)?;
        let c = [c0, c1, c2, c3];
        proof {
            assert(c@ =~= pool.at(self.0 as int).bytes().subrange(0x04, 0x08));
        }
        Ok(c)
    }

    /// Specular colour (0x08..0x0C).
    pub fn spc_rgba(&self, pool: &StructPool) -> (r: Result<[u8; 4]>)
        requires
            pool.wf(),
            self.0 < pool.len(),
        ensures
            pool.at(self.0 as int).fits(0x0B, 1) ==> (r matches Ok(c) && c@ == pool.at(self.0 as int).bytes().subrange(
                0x08,
                0x0C,
            )),
            !pool.at(self.0 as int).fits(0x0B, 1) ==> r is Err,
    {
        let s = pool.get(self.0);
        let c0 = s.get_byte(0x08)?;
        let c1 = s.get_byte(0x09)?;
        let c2 = s.get_byte(0x0A)?;
        let c3 = s.get_byte(0x0B)?;
        let c = [c0, c1, c2, c3];
        proof {
            assert(c@ =~= pool.at(self.0 as int).bytes().subrange(0x08, 0x0C));
        }
        Ok(c)
    }

    /// Alpha (`f32` bits at 0x0C).
    pub fn alpha(&self, pool: &StructPool) -> (r: Result<u32>)
        requires
            pool.wf(),
            self.0 < pool.len(),
        ensures
            r == pool.at(self.0 as int).u32_field(0x0C),
    {
        pool.get(self.0).get_u32(0x0C)
    }

    /// Shininess (`f32` bits at 0x10).
    pub fn shininess(&self, pool: &StructPool) -> (r: Result<u32>)
        requires
            pool.wf(),
            self.0 < pool.len(),
        ensures
            r == pool.at(self.0 as int).u32_field(0x10),
    {
        pool.get(self.0).get_u32(0x10)
    }

    /// A brand-new HSD_Material: 0x14 zero bytes.
    pub fn allocate_default(pool: &mut StructPool) -> (a: Self)
        requires
            old(pool).wf(),
        ensures
            a.0 == old(pool).len(),
            final(pool).wf(),
            final(pool).extends(&old(pool)),
            final(pool).at(a.0 as int).bytes() == zeros(0x14),
            final(pool).at(a.0 as int).refs() == Map::<u32, StructRef>::empty(),
            final(pool).at(a.0 as int).default_flags(),
    {
        Material(alloc_zeroed(pool, 0x14))
    }

    /// Write the ambient colour.
    pub fn set_amb_rgba(&self, pool: &mut StructPool, rgba: [u8; 4]) -> (r: Result<()>)
        requires
            old(pool).wf(),
            self.0 < old(pool).len(),
        ensures
            r is Ok,
            final(pool).wf(),
            final(pool).same_except(&old(pool), self.0 as int),
            final(pool).at(self.0 as int).bytes() == splice(
                grown(old(pool).at(self.0 as int).bytes(), 0x14),
                0x00,
                rgba@,
            ),
            final(pool).at(self.0 as int).refs() == grown_refs(old(pool).at(self.0 as int), 0x14),
            final(pool).at(self.0 as int).same_flags(&old(pool).at(self.0 as int)),
    {
        let ghost g = grown(old(pool).at(self.0 as int).bytes(), 0x14);
        put_u8(pool, self.0, 0x14, 0x00, rgba[0]);
        put_u8(pool, self.0, 0x14, 0x01, rgba[1]);
        put_u8(pool, self.0, 0x14, 0x02, rgba[2]);
        put_u8(pool, self.0, 0x14, 0x03, rgba[3]);
        proof {
            assert(pool.at(self.0 as int).bytes() =~= splice(g, 0x00, rgba@));
        }
        Ok(())
    }

    /// Write the diffuse colour.
    pub fn set_dif_rgba(&self, pool: &mut StructPool, rgba: [u8; 4]) -> (r: Result<()>)
        requires
            old(pool).wf(),
            self.0 < old(pool).len(),
        ensures
            r is Ok,
            final(pool).wf(),
            final(pool).same_except(&old(pool), self.0 as int),
            final(pool).at(self.0 as int).bytes() == splice(
                grown(old(pool).at(self.0 as int).bytes(), 0x14),
                0x04,
                rgba@,
            ),
            final(pool).at(self.0 as int).refs() == grown_refs(old(pool).at(self.0 as int), 0x14),
            final(pool).at(self.0 as int).same_flags(&old(pool).at(self.0 as int)),
    {
        let ghost g = grown(old(pool).at(self.0 as int).bytes(), 0x14);
        put_u8(pool, self.0, 0x14, 0x04, rgba[0]);
        put_u8(pool, self.0, 0x14, 0x05, rgba[1]);
        put_u8(pool, self.0, 0x14, 0x06, rgba[2]);
        put_u8(pool, self.0, 0x14, 0x07, rgba[3]);
        proof {
            assert(pool.at(self.0 as int).bytes() =~= splice(g, 0x04, rgba@));
        }
        Ok(())
    }

    /// Write the specular colour.
    pub fn set_spc_rgba(&self, pool: &mut StructPool, rgba: [u8; 4]) -> (r: Result<()>)
        requires
            old(pool).wf(),
            self.0 < old(pool).len(),
        ensures
            r is Ok,
            final(pool).wf(),
            final(pool).same_except(&old(pool), self.0 as int),
            final(pool).at(self.0 as int).bytes() == splice(
                grown(old(pool).at(self.0 as int).bytes(), 0x14),
                0x08,
                rgba@,
            ),
            final(pool).at(self.0 as int).refs() == grown_refs(old(pool).at(self.0 as int), 0x14),
            final(pool).at(self.0 as int).same_flags(&old(pool).at(self.0 as int)),
    {
        let ghost g = grown(old(pool).at(self.0 as int).bytes(), 0x14);
        put_u8(pool, self.0, 0x14, 0x08, rgba[0]);
        put_u8(pool, self.0, 0x14, 0x09, rgba[1]);
        put_u8(pool, self.0, 0x14, 0x0A, rgba[2]);
        put_u8(pool, self.0, 0x14, 0x0B, rgba[3]);
        proof {
            assert(pool.at(self.0 as int).bytes() =~= splice(g, 0x08, rgba@));
        }
        Ok(())
    }

    /// Write the alpha (`f32` bits at 0x0C).
    pub fn set_alpha(&self, pool: &mut StructPool, v: u32) -> (r: Result<()>)
        requires
            old(pool).wf(),
            self.0 < old(pool).len(),
        ensures
            r is Ok,
            final(pool).wf(),
            final(pool).same_except(&old(pool), self.0 as int),
            final(pool).at(self.0 as int).bytes() == splice(
                grown(old(pool).at(self.0 as int).bytes(), 0x14),
                0x0C,
                be32_bytes(v),
            ),
            final(pool).at(self.0 as int).refs() == grown_refs(old(pool).at(self.0 as int), 0x14),
            final(pool).at(self.0 as int).same_flags(&old(pool).at(self.0 as int)),
    {
        put_u32(pool, self.0, 0x14, 0x0C, v);
        Ok(())
    }

    /// Write the shininess (`f32` bits at 0x10).
    pub fn set_shininess(&self, pool: &mut StructPool, v: u32) -> (r: Result<()>)
        requires
            old(pool).wf(),
            self.0 < old(pool).len(),
        ensures
            r is Ok,
            final(pool).wf(),
            final(pool).same_except(&old(pool), self.0 as int),
            final(pool).at(self.0 as int).bytes() == splice(
                grown(old(pool).at(self.0 as int).bytes(), 0x14),
                0x10,
                be32_bytes(v),
            ),
            final(pool).at(self.0 as int).refs() == grown_refs(old(pool).at(self.0 as int), 0x14),
            final(pool).at(self.0 as int).same_flags(&old(pool).at(self.0 as int)),
    {
        put_u32(pool, self.0, 0x14, 0x10, v);
        Ok(())
    }

}

/// HSD_PEDesc (TrimmedSize 0xC): pixel-engine blend / depth / alpha-test state.
#[derive(Clone, Copy, Debug, PartialEq, Eq, Structural)]
pub struct PeDesc(pub StructRef);

impl Accessor for PeDesc {
    open spec fn struct_ref(&self) -> StructRef {
        self.0
    }

    fn from_struct(s: StructRef) -> (a: Self) {
        PeDesc(s)
    }

    fn as_struct(&self) -> (r: &StructRef) {
        &self.0
    }
}

impl PeDesc {
    /// Byte 0x00.
    pub fn flags(&self, pool: &StructPool) -> (r: Result<u8>)
        requires
            pool.wf(),
            self.0 < pool.len(),
        ensures
            r == pool.at(self.0 as int).byte_field(0x00),
    {
        pool.get(self.0).get_byte(0x00)
    }

    /// Byte 0x01.
    pub fn alpha_ref0(&self, pool: &StructPool) -> (r: Result<u8>)
        requires
            pool.wf(),
            self.0 < pool.len(),
        ensures
            r == pool.at(self.0 as int).byte_field(0x01),
    {
        pool.get(self.0).get_byte(0x01)
    }

    /// Byte 0x02.
    pub fn alpha_ref1(&self, pool: &StructPool) -> (r: Result<u8>)
        requires
            pool.wf(),
            self.0 < pool.len(),
        ensures
            r == pool.at(self.0 as int).byte_field(0x02),
    {
        pool.get(self.0).get_byte(0x02)
    }

    /// Byte 0x03.
    pub fn destination_alpha(&self, pool: &StructPool) -> (r: Result<u8>)
        requires
            pool.wf(),
            self.0 < pool.len(),
        ensures
            r == pool.at(self.0 as int).byte_field(0x03),
    {
        pool.get(self.0).get_byte(0x03)
    }

    /// Byte 0x04.
    pub fn blend_mode(&self, pool: &StructPool) -> (r: Result<u8>)
        requires
            pool.wf(),
            self.0 < pool.len(),
        ensures
            r == pool.at(self.0 as int).byte_field(0x04),
    {
        pool.get(self.0).get_byte(0x04)
    }

    /// Byte 0x05.
    pub fn src_factor(&self, pool: &StructPool) -> (r: Result<u8>)
        requires
            pool.wf(),
            self.0 < pool.len(),
        ensures
            r == pool.at(self.0 as int).byte_field(0x05),
    {
        pool.get(self.0).get_byte(0x05)
    }

    /// Byte 0x06.
    pub fn dst_factor(&self, pool: &StructPool) -> (r: Result<u8>)
        requires
            pool.wf(),
            self.0 < pool.len(),
        ensures
            r == pool.at(self.0 as int).byte_field(0x06),
    {
        pool.get(self.0).get_byte(0x06)
    }

    /// Byte 0x07.
    pub fn blend_op(&self, pool: &StructPool) -> (r: Result<u8>)
        requires
            pool.wf(),
            self.0 < pool.len(),
        ensures
            r == pool.at(self.0 as int).byte_field(0x07),
    {
        pool.get(self.0).get_byte(0x07)
    }

    /// Byte 0x08.
    pub fn depth_function(&self, pool: &StructPool) -> (r: Result<u8>)
        requires
            pool.wf(),
            self.0 < pool.len(),
        ensures
            r == pool.at(self.0 as int).byte_field(0x08),
    {
        pool.get(self.0).get_byte(0x08)
    }

    /// Byte 0x09.
    pub fn alpha_comp0(&self, pool: &StructPool) -> (r: Result<u8>)
        requires
            pool.wf(),
            self.0 < pool.len(),
        ensures
            r == pool.at(self.0 as int).byte_field(0x09),
    {
        pool.get(self.0).get_byte(0x09)
    }

    /// Byte 0x0A.
    pub fn alpha_op(&self, pool: &StructPool) -> (r: Result<u8>)
        requires
            pool.wf(),
            self.0 < pool.len(),
        ensures
            r == pool.at(self.0 as int).byte_field(0x0A),
    {
        pool.get(self.0).get_byte(0x0A)
    }

    /// Byte 0x0B.
    pub fn alpha_comp1(&self, pool: &StructPool) -> (r: Result<u8>)
        requires
            pool.wf(),
            self.0 < pool.len(),
        ensures
            r == pool.at(self.0 as int).byte_field(0x0B),
    {
        pool.get(self.0).get_byte(0x0B)
    }

    /// A brand-new HSD_PEDesc: 0xC zero bytes.
    pub fn allocate_default(pool: &mut StructPool) -> (a: Self)
        requires
            old(pool).wf(),
        ensures
            a.0 == old(pool).len(),
            final(pool).wf(),
            final(pool).extends(&old(pool)),
            final(pool).at(a.0 as int).bytes() == zeros(0x0C),
            final(pool).at(a.0 as int).refs() == Map::<u32, StructRef>::empty(),
            final(pool).at(a.0 as int).default_flags(),
    {
        PeDesc(alloc_zeroed(pool, 0x0C))
    }

    /// Write byte 0x00.
    pub fn set_flags(&self, pool: &mut StructPool, v: u8) -> (r: Result<()>)
        requires
            old(pool).wf(),
            self.0 < old(pool).len(),
        ensures
            r is Ok,
            final(pool).wf(),
            final(pool).same_except(&old(pool), self.0 as int),
            final(pool).at(self.0 as int).bytes() == grown(old(pool).at(self.0 as int).bytes(), 0x0C).update(0x00, v),
            final(pool).at(self.0 as int).refs() == grown_refs(old(pool).at(self.0 as int), 0x0C),
            final(pool).at(self.0 as int).same_flags(&old(pool).at(self.0 as int)),
    {
        self.put_byte(pool, 0x00, v)
    }

    /// Write byte 0x01.
    pub fn set_alpha_ref0(&self, pool: &mut StructPool, v: u8) -> (r: Result<()>)
        requires
            old(pool).wf(),
            self.0 < old(pool).len(),
        ensures
            r is Ok,
            final(pool).wf(),
            final(pool).same_except(&old(pool), self.0 as int),
            final(pool).at(self.0 as int).bytes() == grown(old(pool).at(self.0 as int).bytes(), 0x0C).update(0x01, v),
            final(pool).at(self.0 as int).refs() == grown_refs(old(pool).at(self.0 as int), 0x0C),
            final(pool).at(self.0 as int).same_flags(&old(pool).at(self.0 as int)),
    {
        self.put_byte(pool, 0x01, v)
    }

    /// Write byte 0x02.
    pub fn set_alpha_ref1(&self, pool: &mut StructPool, v: u8) -> (r: Result<()>)
        requires
            old(pool).wf(),
            self.0 < old(pool).len(),
        ensures
            r is Ok,
            final(pool).wf(),
            final(pool).same_except(&old(pool), self.0 as int),
            final(pool).at(self.0 as int).bytes() == grown(old(pool).at(self.0 as int).bytes(), 0x0C).update(0x02, v),
            final(pool).at(self.0 as int).refs() == grown_refs(old(pool).at(self.0 as int), 0x0C),
            final(pool).at(self.0 as int).same_flags(&old(pool).at(self.0 as int)),
    {
        self.put_byte(pool, 0x02, v)
    }

    /// Write byte 0x03.
    pub fn set_destination_alpha(&self, pool: &mut StructPool, v: u8) -> (r: Result<()>)
        requires
            old(pool).wf(),
            self.0 < old(pool).len(),
        ensures
            r is Ok,
            final(pool).wf(),
            final(pool).same_except(&old(pool), self.0 as int),
            final(pool).at(self.0 as int).bytes() == grown(old(pool).at(self.0 as int).bytes(), 0x0C).update(0x03, v),
            final(pool).at(self.0 as int).refs() == grown_refs(old(pool).at(self.0 as int), 0x0C),
            final(pool).at(self.0 as int).same_flags(&old(pool).at(self.0 as int)),
    {
        self.put_byte(pool, 0x03, v)
    }

    /// Write byte 0x04.
    pub fn set_blend_mode(&self, pool: &mut StructPool, v: u8) -> (r: Result<()>)
        requires
            old(pool).wf(),
            self.0 < old(pool).len(),
        ensures
            r is Ok,
            final(pool).wf(),
            final(pool).same_except(&old(pool), self.0 as int),
            final(pool).at(self.0 as int).bytes() == grown(old(pool).at(self.0 as int).bytes(), 0x0C).update(0x04, v),
            final(pool).at(self.0 as int).refs() == grown_refs(old(pool).at(self.0 as int), 0x0C),
            final(pool).at(self.0 as int).same_flags(&old(pool).at(self.0 as int)),
    {
        self.put_byte(pool, 0x04, v)
    }

    /// Write byte 0x05.
    pub fn set_src_factor(&self, pool: &mut StructPool, v: u8) -> (r: Result<()>)
        requires
            old(pool).wf(),
            self.0 < old(pool).len(),
        ensures
            r is Ok,
            final(pool).wf(),
            final(pool).same_except(&old(pool), self.0 as int),
            final(pool).at(self.0 as int).bytes() == grown(old(pool).at(self.0 as int).bytes(), 0x0C).update(0x05, v),
            final(pool).at(self.0 as int).refs() == grown_refs(old(pool).at(self.0 as int), 0x0C),
            final(pool).at(self.0 as int).same_flags(&old(pool).at(self.0 as int)),
    {
        self.put_byte(pool, 0x05, v)
    }

    /// Write byte 0x06.
    pub fn set_dst_factor(&self, pool: &mut StructPool, v: u8) -> (r: Result<()>)
        requires
            old(pool).wf(),
            self.0 < old(pool).len(),
        ensures
            r is Ok,
            final(pool).wf(),
            final(pool).same_except(&old(pool), self.0 as int),
            final(pool).at(self.0 as int).bytes() == grown(old(pool).at(self.0 as int).bytes(), 0x0C).update(0x06, v),
            final(pool).at(self.0 as int).refs() == grown_refs(old(pool).at(self.0 as int), 0x0C),
            final(pool).at(self.0 as int).same_flags(&old(pool).at(self.0 as int)),
    {
        self.put_byte(pool, 0x06, v)
    }

    /// Write byte 0x07.
    pub fn set_blend_op(&self, pool: &mut StructPool, v: u8) -> (r: Result<()>)
        requires
            old(pool).wf(),
            self.0 < old(pool).len(),
        ensures
            r is Ok,
            final(pool).wf(),
            final(pool).same_except(&old(pool), self.0 as int),
            final(pool).at(self.0 as int).bytes() == grown(old(pool).at(self.0 as int).bytes(), 0x0C).update(0x07, v),
            final(pool).at(self.0 as int).refs() == grown_refs(old(pool).at(self.0 as int), 0x0C),
            final(pool).at(self.0 as int).same_flags(&old(pool).at(self.0 as int)),
    {
        self.put_byte(pool, 0x07, v)
    }

    /// Write byte 0x08.
    pub fn set_depth_function(&self, pool: &mut StructPool, v: u8) -> (r: Result<()>)
        requires
            old(pool).wf(),
            self.0 < old(pool).len(),
        ensures
            r is Ok,
            final(pool).wf(),
            final(pool).same_except(&old(pool), self.0 as int),
            final(pool).at(self.0 as int).bytes() == grown(old(pool).at(self.0 as int).bytes(), 0x0C).update(0x08, v),
            final(pool).at(self.0 as int).refs() == grown_refs(old(pool).at(self.0 as int), 0x0C),
            final(pool).at(self.0 as int).same_flags(&old(pool).at(self.0 as int)),
    {
        self.put_byte(pool, 0x08, v)
    }

    /// Write byte 0x09.
    pub fn set_alpha_comp0(&self, pool: &mut StructPool, v: u8) -> (r: Result<()>)
        requires
            old(pool).wf(),
            self.0 < old(pool).len(),
        ensures
            r is Ok,
            final(pool).wf(),
            final(pool).same_except(&old(pool), self.0 as int),
            final(pool).at(self.0 as int).bytes() == grown(old(pool).at(self.0 as int).bytes(), 0x0C).update(0x09, v),
            final(pool).at(self.0 as int).refs() == grown_refs(old(pool).at(self.0 as int), 0x0C),
            final(pool).at(self.0 as int).same_flags(&old(pool).at(self.0 as int)),
    {
        self.put_byte(pool, 0x09, v)
    }

    /// Write byte 0x0A.
    pub fn set_alpha_op(&self, pool: &mut StructPool, v: u8) -> (r: Result<()>)
        requires
            old(pool).wf(),
            self.0 < old(pool).len(),
        ensures
            r is Ok,
            final(pool).wf(),
            final(pool).same_except(&old(pool), self.0 as int),
            final(pool).at(self.0 as int).bytes() == grown(old(pool).at(self.0 as int).bytes(), 0x0C).update(0x0A, v),
            final(pool).at(self.0 as int).refs() == grown_refs(old(pool).at(self.0 as int), 0x0C),
            final(pool).at(self.0 as int).same_flags(&old(pool).at(self.0 as int)),
    {
        self.put_byte(pool, 0x0A, v)
    }

    /// Write byte 0x0B.
    pub fn set_alpha_comp1(&self, pool: &mut StructPool, v: u8) -> (r: Result<()>)
        requires
            old(pool).wf(),
            self.0 < old(pool).len(),
        ensures
            r is Ok,
            final(pool).wf(),
            final(pool).same_except(&old(pool), self.0 as int),
            final(pool).at(self.0 as int).bytes() == grown(old(pool).at(self.0 as int).bytes(), 0x0C).update(0x0B, v),
            final(pool).at(self.0 as int).refs() == grown_refs(old(pool).at(self.0 as int), 0x0C),
            final(pool).at(self.0 as int).same_flags(&old(pool).at(self.0 as int)),
    {
        self.put_byte(pool, 0x0B, v)
    }

    fn put_byte(&self, pool: &mut StructPool, off: usize, v: u8) -> (r: Result<()>)
        requires
            old(pool).wf(),
            self.0 < old(pool).len(),
            off < 0x0C,
        ensures
            r is Ok,
            final(pool).wf(),
            final(pool).same_except(&old(pool), self.0 as int),
            final(pool).at(self.0 as int).bytes() == grown(old(pool).at(self.0 as int).bytes(), 0x0C).update(off as int, v),
            final(pool).at(self.0 as int).refs() == grown_refs(old(pool).at(self.0 as int), 0x0C),
            final(pool).at(self.0 as int).same_flags(&old(pool).at(self.0 as int)),
    {
        put_u8(pool, self.0, 0x0C, off as u32, v);
        Ok(())
    }
}


/// HSD_POBJ (TrimmedSize 0x18): vertex attribute table + display list.
#[derive(Clone, Copy, Debug, PartialEq, Eq, Structural)]
pub struct PObj(pub StructRef);

impl Accessor for PObj {
    open spec fn struct_ref(&self) -> StructRef {
        self.0
    }

    fn from_struct(s: StructRef) -> (a: Self) {
        PObj(s)
    }

    fn as_struct(&self) -> (r: &StructRef) {
        &self.0
    }
}

impl PObj {
    /// The class name string referenced at 0x00.
    pub fn class_name(&self, pool: &StructPool) -> (r: Result<Option<String>>)
        requires
            pool.wf(),
            self.0 < pool.len(),
        ensures
            string_read(pool, pool.at(self.0 as int), 0x00, r),
    {
        pool.get(self.0).get_string(pool, 0x00)
    }

    /// Next PObj (0x04).
    pub fn next(&self, pool: &StructPool) -> (r: Option<PObj>)
        requires
            pool.wf(),
            self.0 < pool.len(),
        ensures
            r == (match pool.at(self.0 as int).ref_at(0x04) {
                Some(x) => Some(PObj(x)),
                None => None,
            }),
            r matches Some(t) ==> t.0 < pool.len(),
    {
        assert(pool.at(self.0 as int).wf() && pool.at(self.0 as int).refs_below(pool.len()));
        match pool.get(self.0).get_reference(0x04) {
            Some(x) => Some(PObj(x)),
            None => None,
        }
    }

    /// The vertex attribute table struct (0x08).
    pub fn attributes_struct(&self, pool: &StructPool) -> (r: Option<StructRef>)
        requires
            pool.wf(),
            self.0 < pool.len(),
        ensures
            r == pool.at(self.0 as int).ref_at(0x08),
            r matches Some(t) ==> t < pool.len(),
    {
        assert(pool.at(self.0 as int).wf() && pool.at(self.0 as int).refs_below(pool.len()));
        pool.get(self.0).get_reference(0x08)
    }

    /// `POBJ_FLAG` bits at 0x0C.
    pub fn flags(&self, pool: &StructPool) -> (r: Result<PObjFlag>)
        requires
            pool.wf(),
            self.0 < pool.len(),
        ensures
            r == res_map(pool.at(self.0 as int).u16_field(0x0C), |v: u16| PObjFlag(v)),
    {
        match pool.get(self.0).get_u16(0x0C) {
            Ok(v) => Ok(PObjFlag::from_bits_retain(v)),
            Err(e) => Err(e),
        }
    }

    /// Display list size in bytes (stored in 32-byte units at 0x0E, as a
    /// signed 16-bit count that is sign-extended before scaling).
    pub fn display_list_size(&self, pool: &StructPool) -> (r: Result<u32>)
        requires
            pool.wf(),
            self.0 < pool.len(),
        ensures
            r == res_map(pool.at(self.0 as int).i16_field(0x0E), |v: i16| (v as u32).wrapping_mul(32)),
    {
        match pool.get(self.0).get_i16(0x0E) {
            Ok(v) => Ok((v as u32).wrapping_mul(32)),
            Err(e) => Err(e),
        }
    }

    /// Bytes of the display-list buffer (0x10).
    pub fn display_list_buffer(&self, pool: &StructPool) -> (r: Option<Vec<u8>>)
        requires
            pool.wf(),
            self.0 < pool.len(),
        ensures
            pool.at(self.0 as int).ref_at(0x10) is None ==> r is None,
            pool.at(self.0 as int).ref_at(0x10) matches Some(x) ==> (r matches Some(v) && v@ == pool.at(
                x as int,
            ).bytes()),
    {
        assert(pool.at(self.0 as int).wf() && pool.at(self.0 as int).refs_below(pool.len()));
        match pool.get(self.0).get_reference(0x10) {
            Some(x) => Some(vstd::slice::slice_to_vec(pool.get(x).data())),
            None => None,
        }
    }

    /// The single-bound JObj at 0x14.  The slot is a tagged union driven by
    /// the flags: with SHAPESET or ENVELOPE set it holds something else and
    /// there is no single-bound joint.
    pub fn single_bound_jobj(&self, pool: &StructPool) -> (r: Result<Option<JObj>>)
        requires
            pool.wf(),
            self.0 < pool.len(),
        ensures
            match pool.at(self.0 as int).u16_field(0x0C) {
                Err(e) => r == Err::<Option<JObj>, HsdError>(e),
                Ok(f) => if f & (PObjFlag::SHAPESET | PObjFlag::ENVELOPE) != 0 {
                    r == Ok::<Option<JObj>, HsdError>(None)
                } else {
                    r == Ok::<Option<JObj>, HsdError>(
                        match pool.at(self.0 as int).ref_at(0x14) {
                            Some(x) => Some(JObj(x)),
                            None => None,
                        },
                    )
                },
            },
            r matches Ok(Some(j)) ==> j.0 < pool.len(),
    {
        let f = self.flags(pool)?;
        if f.intersects(PObjFlag::from_bits_retain(PObjFlag::SHAPESET | PObjFlag::ENVELOPE)) {
            return Ok(None);
        }
        assert(pool.at(self.0 as int).wf() && pool.at(self.0 as int).refs_below(pool.len()));
        Ok(
            match pool.get(self.0).get_reference(0x14) {
                Some(x) => Some(JObj(x)),
                None => None,
            },
        )
    }
}


/// HSD_TOBJ (TrimmedSize 0x5C): one texture stage.
#[derive(Clone, Copy, Debug, PartialEq, Eq, Structural)]
pub struct TObj(pub StructRef);

impl Accessor for TObj {
    open spec fn struct_ref(&self) -> StructRef {
        self.0
    }

    fn from_struct(s: StructRef) -> (a: Self) {
        TObj(s)
    }

    fn as_struct(&self) -> (r: &StructRef) {
        &self.0
    }
}

impl TObj {
    /// The class name string referenced at 0x00.
    pub fn class_name(&self, pool: &StructPool) -> (r: Result<Option<String>>)
        requires
            pool.wf(),
            self.0 < pool.len(),
        ensures
            string_read(pool, pool.at(self.0 as int), 0x00, r),
    {
        pool.get(self.0).get_string(pool, 0x00)
    }

    /// Next texture stage (0x04).
    pub fn next(&self, pool: &StructPool) -> (r: Option<TObj>)
        requires
            pool.wf(),
            self.0 < pool.len(),
        ensures
            r == (match pool.at(self.0 as int).ref_at(0x04) {
                Some(x) => Some(TObj(x)),
                None => None,
            }),
            r matches Some(t) ==> t.0 < pool.len(),
    {
        assert(pool.at(self.0 as int).wf() && pool.at(self.0 as int).refs_below(pool.len()));
        match pool.get(self.0).get_reference(0x04) {
            Some(x) => Some(TObj(x)),
            None => None,
        }
    }

    /// Texture map slot (0x08).
    pub fn tex_map_id(&self, pool: &StructPool) -> (r: Result<GxTexMapId>)
        requires
            pool.wf(),
            self.0 < pool.len(),
        ensures
            r == res_map(pool.at(self.0 as int).u32_field(0x08), |v: u32| GxTexMapId::of_raw(v)),
    {
        match pool.get(self.0).get_u32(0x08) {
            Ok(v) => Ok(GxTexMapId::from_raw(v)),
            Err(e) => Err(e),
        }
    }

    /// X rotation (`f32` bits at 0x10).
    pub fn rx(&self, pool: &StructPool) -> (r: Result<u32>)
        requires
            pool.wf(),
            self.0 < pool.len(),
        ensures
            r == pool.at(self.0 as int).u32_field(0x10),
    {
        pool.get(self.0).get_u32(0x10)
    }

    /// Y rotation (`f32` bits at 0x14).
    pub fn ry(&self, pool: &StructPool) -> (r: Result<u32>)
        requires
            pool.wf(),
            self.0 < pool.len(),
        ensures
            r == pool.at(self.0 as int).u32_field(0x14),
    {
        pool.get(self.0).get_u32(0x14)
    }

    /// Z rotation (`f32` bits at 0x18).
    pub fn rz(&self, pool: &StructPool) -> (r: Result<u32>)
        requires
            pool.wf(),
            self.0 < pool.len(),
        ensures
            r == pool.at(self.0 as int).u32_field(0x18),
    {
        pool.get(self.0).get_u32(0x18)
    }

    /// X scale (`f32` bits at 0x1C).
    pub fn sx(&self, pool: &StructPool) -> (r: Result<u32>)
        requires
            pool.wf(),
            self.0 < pool.len(),
        ensures
            r == pool.at(self.0 as int).u32_field(0x1C),
    {
        pool.get(self.0).get_u32(0x1C)
    }

    /// Y scale (`f32` bits at 0x20).
    pub fn sy(&self, pool: &StructPool) -> (r: Result<u32>)
        requires
            pool.wf(),
            self.0 < pool.len(),
        ensures
            r == pool.at(self.0 as int).u32_field(0x20),
    {
        pool.get(self.0).get_u32(0x20)
    }

    /// Z scale (`f32` bits at 0x24).
    pub fn sz(&self, pool: &StructPool) -> (r: Result<u32>)
        requires
            pool.wf(),
            self.0 < pool.len(),
        ensures
            r == pool.at(self.0 as int).u32_field(0x24),
    {
        pool.get(self.0).get_u32(0x24)
    }

    /// X translation (`f32` bits at 0x28).
    pub fn tx(&self, pool: &StructPool) -> (r: Result<u32>)
        requires
            pool.wf(),
            self.0 < pool.len(),
        ensures
            r == pool.at(self.0 as int).u32_field(0x28),
    {
        pool.get(self.0).get_u32(0x28)
    }

    /// Y translation (`f32` bits at 0x2C).
    pub fn ty(&self, pool: &StructPool) -> (r: Result<u32>)
        requires
            pool.wf(),
            self.0 < pool.len(),
        ensures
            r == pool.at(self.0 as int).u32_field(0x2C),
    {
        pool.get(self.0).get_u32(0x2C)
    }

    /// Z translation (`f32` bits at 0x30).
    pub fn tz(&self, pool: &StructPool) -> (r: Result<u32>)
        requires
            pool.wf(),
            self.0 < pool.len(),
        ensures
            r == pool.at(self.0 as int).u32_field(0x30),
    {
        pool.get(self.0).get_u32(0x30)
    }

    /// S wrap mode (0x34).
    pub fn wrap_s(&self, pool: &StructPool) -> (r: Result<GxWrapMode>)
        requires
            pool.wf(),
            self.0 < pool.len(),
        ensures
            r == res_map(pool.at(self.0 as int).u32_field(0x34), |v: u32| GxWrapMode::of_raw(v)),
    {
        match pool.get(self.0).get_u32(0x34) {
            Ok(v) => Ok(GxWrapMode::from_raw(v)),
            Err(e) => Err(e),
        }
    }

    /// T wrap mode (0x38).
    pub fn wrap_t(&self, pool: &StructPool) -> (r: Result<GxWrapMode>)
        requires
            pool.wf(),
            self.0 < pool.len(),
        ensures
            r == res_map(pool.at(self.0 as int).u32_field(0x38), |v: u32| GxWrapMode::of_raw(v)),
    {
        match pool.get(self.0).get_u32(0x38) {
            Ok(v) => Ok(GxWrapMode::from_raw(v)),
            Err(e) => Err(e),
        }
    }

    /// S repeat count (0x3C).
    pub fn repeat_s(&self, pool: &StructPool) -> (r: Result<u8>)
        requires
            pool.wf(),
            self.0 < pool.len(),
        ensures
            r == pool.at(self.0 as int).byte_field(0x3C),
    {
        pool.get(self.0).get_byte(0x3C)
    }

    /// T repeat count (0x3D).
    pub fn repeat_t(&self, pool: &StructPool) -> (r: Result<u8>)
        requires
            pool.wf(),
            self.0 < pool.len(),
        ensures
            r == pool.at(self.0 as int).byte_field(0x3D),
    {
        pool.get(self.0).get_byte(0x3D)
    }

    /// `TOBJ_FLAGS` bits at 0x40.
    pub fn flags(&self, pool: &StructPool) -> (r: Result<TObjFlags>)
        requires
            pool.wf(),
            self.0 < pool.len(),
        ensures
            r == res_map(pool.at(self.0 as int).u32_field(0x40), |v: u32| TObjFlags(v)),
    {
        match pool.get(self.0).get_u32(0x40) {
            Ok(v) => Ok(TObjFlags::from_bits_retain(v)),
            Err(e) => Err(e),
        }
    }

    /// Coordinate type: low nibble of the flags.
    pub fn coord_type(&self, pool: &StructPool) -> (r: Result<CoordType>)
        requires
            pool.wf(),
            self.0 < pool.len(),
        ensures
            r == res_map(pool.at(self.0 as int).u32_field(0x40), |v: u32| CoordType::of_raw(v & 0xF)),
    {
        match pool.get(self.0).get_u32(0x40) {
            Ok(v) => Ok(CoordType::from_raw(v & 0xF)),
            Err(e) => Err(e),
        }
    }

    /// Colour operation: bits 16-19 of the flags.
    pub fn color_operation(&self, pool: &StructPool) -> (r: Result<ColorMap>)
        requires
            pool.wf(),
            self.0 < pool.len(),
        ensures
            r == res_map(pool.at(self.0 as int).u32_field(0x40), |v: u32| ColorMap::of_raw((v >> 16) & 0xF)),
    {
        match pool.get(self.0).get_u32(0x40) {
            Ok(v) => Ok(ColorMap::from_raw((v >> 16) & 0xF)),
            Err(e) => Err(e),
        }
    }

    /// Alpha operation: bits 20-23 of the flags.
    pub fn alpha_operation(&self, pool: &StructPool) -> (r: Result<AlphaMap>)
        requires
            pool.wf(),
            self.0 < pool.len(),
        ensures
            r == res_map(pool.at(self.0 as int).u32_field(0x40), |v: u32| AlphaMap::of_raw((v >> 20) & 0xF)),
    {
        match pool.get(self.0).get_u32(0x40) {
            Ok(v) => Ok(AlphaMap::from_raw((v >> 20) & 0xF)),
            Err(e) => Err(e),
        }
    }

    /// Blending factor (`f32` bits at 0x44).
    pub fn blending(&self, pool: &StructPool) -> (r: Result<u32>)
        requires
            pool.wf(),
            self.0 < pool.len(),
        ensures
            r == pool.at(self.0 as int).u32_field(0x44),
    {
        pool.get(self.0).get_u32(0x44)
    }

    /// Magnification filter (0x48).
    pub fn mag_filter(&self, pool: &StructPool) -> (r: Result<GxTexFilter>)
        requires
            pool.wf(),
            self.0 < pool.len(),
        ensures
            r == res_map(pool.at(self.0 as int).u32_field(0x48), |v: u32| GxTexFilter::of_raw(v)),
    {
        match pool.get(self.0).get_u32(0x48) {
            Ok(v) => Ok(GxTexFilter::from_raw(v)),
            Err(e) => Err(e),
        }
    }

    /// Image descriptor (0x4C).
    pub fn image_data(&self, pool: &StructPool) -> (r: Option<Image>)
        requires
            pool.wf(),
            self.0 < pool.len(),
        ensures
            r == (match pool.at(self.0 as int).ref_at(0x4C) {
                Some(x) => Some(Image(x)),
                None => None,
            }),
            r matches Some(t) ==> t.0 < pool.len(),
    {
        assert(pool.at(self.0 as int).wf() && pool.at(self.0 as int).refs_below(pool.len()));
        match pool.get(self.0).get_reference(0x4C) {
            Some(x) => Some(Image(x)),
            None => None,
        }
    }

    /// Palette descriptor (0x50).
    pub fn tlut_data(&self, pool: &StructPool) -> (r: Option<Tlut>)
        requires
            pool.wf(),
            self.0 < pool.len(),
        ensures
            r == (match pool.at(self.0 as int).ref_at(0x50) {
                Some(x) => Some(Tlut(x)),
                None => None,
            }),
            r matches Some(t) ==> t.0 < pool.len(),
    {
        assert(pool.at(self.0 as int).wf() && pool.at(self.0 as int).refs_below(pool.len()));
        match pool.get(self.0).get_reference(0x50) {
            Some(x) => Some(Tlut(x)),
            None => None,
        }
    }

}

/// HSD_Image (TrimmedSize 0x18): texel buffer, size and format.
#[derive(Clone, Copy, Debug, PartialEq, Eq, Structural)]
pub struct Image(pub StructRef);

impl Accessor for Image {
    open spec fn struct_ref(&self) -> StructRef {
        self.0
    }

    fn from_struct(s: StructRef) -> (a: Self) {
        Image(s)
    }

    fn as_struct(&self) -> (r: &StructRef) {
        &self.0
    }
}

impl Image {
    /// Bytes of the texel buffer (0x00).
    pub fn image_data(&self, pool: &StructPool) -> (r: Option<Vec<u8>>)
        requires
            pool.wf(),
            self.0 < pool.len(),
        ensures
            pool.at(self.0 as int).ref_at(0x00) is None ==> r is None,
            pool.at(self.0 as int).ref_at(0x00) matches Some(x) ==> (r matches Some(v) && v@ == pool.at(
                x as int,
            ).bytes()),
    {
        assert(pool.at(self.0 as int).wf() && pool.at(self.0 as int).refs_below(pool.len()));
        match pool.get(self.0).get_reference(0x00) {
            Some(x) => Some(vstd::slice::slice_to_vec(pool.get(x).data())),
            None => None,
        }
    }

    /// Width in texels (0x04).
    pub fn width(&self, pool: &StructPool) -> (r: Result<i16>)
        requires
            pool.wf(),
            self.0 < pool.len(),
        ensures
            r == pool.at(self.0 as int).i16_field(0x04),
    {
        pool.get(self.0).get_i16(0x04)
    }

    /// Height in texels (0x06).
    pub fn height(&self, pool: &StructPool) -> (r: Result<i16>)
        requires
            pool.wf(),
            self.0 < pool.len(),
        ensures
            r == pool.at(self.0 as int).i16_field(0x06),
    {
        pool.get(self.0).get_i16(0x06)
    }

    /// Texel format (0x08).
    pub fn format(&self, pool: &StructPool) -> (r: Result<GxTexFmt>)
        requires
            pool.wf(),
            self.0 < pool.len(),
        ensures
            r == res_map(pool.at(self.0 as int).u32_field(0x08), |v: u32| GxTexFmt::of_raw(v)),
    {
        match pool.get(self.0).get_u32(0x08) {
            Ok(v) => Ok(GxTexFmt::from_raw(v)),
            Err(e) => Err(e),
        }
    }

    /// Mipmap flag (0x0C).
    pub fn mipmap(&self, pool: &StructPool) -> (r: Result<i32>)
        requires
            pool.wf(),
            self.0 < pool.len(),
        ensures
            r == pool.at(self.0 as int).i32_field(0x0C),
    {
        pool.get(self.0).get_i32(0x0C)
    }

    /// Minimum LOD (`f32` bits at 0x10).
    pub fn min_lod(&self, pool: &StructPool) -> (r: Result<u32>)
        requires
            pool.wf(),
            self.0 < pool.len(),
        ensures
            r == pool.at(self.0 as int).u32_field(0x10),
    {
        pool.get(self.0).get_u32(0x10)
    }

    /// Maximum LOD (`f32` bits at 0x14).
    pub fn max_lod(&self, pool: &StructPool) -> (r: Result<u32>)
        requires
            pool.wf(),
            self.0 < pool.len(),
        ensures
            r == pool.at(self.0 as int).u32_field(0x14),
    {
        pool.get(self.0).get_u32(0x14)
    }

    /// A brand-new HSD_Image: 0x18 zero bytes.
    pub fn allocate_default(pool: &mut StructPool) -> (a: Self)
        requires
            old(pool).wf(),
        ensures
            a.0 == old(pool).len(),
            final(pool).wf(),
            final(pool).extends(&old(pool)),
            final(pool).at(a.0 as int).bytes() == zeros(0x18),
            final(pool).at(a.0 as int).refs() == Map::<u32, StructRef>::empty(),
            final(pool).at(a.0 as int).default_flags(),
    {
        Image(alloc_zeroed(pool, 0x18))
    }

}

/// HSD_Tlut (TrimmedSize 0x20): palette buffer and format.
#[derive(Clone, Copy, Debug, PartialEq, Eq, Structural)]
pub struct Tlut(pub StructRef);

impl Accessor for Tlut {
    open spec fn struct_ref(&self) -> StructRef {
        self.0
    }

    fn from_struct(s: StructRef) -> (a: Self) {
        Tlut(s)
    }

    fn as_struct(&self) -> (r: &StructRef) {
        &self.0
    }
}

impl Tlut {
    /// Bytes of the palette buffer (0x00).
    pub fn tlut_data(&self, pool: &StructPool) -> (r: Option<Vec<u8>>)
        requires
            pool.wf(),
            self.0 < pool.len(),
        ensures
            pool.at(self.0 as int).ref_at(0x00) is None ==> r is None,
            pool.at(self.0 as int).ref_at(0x00) matches Some(x) ==> (r matches Some(v) && v@ == pool.at(
                x as int,
            ).bytes()),
    {
        assert(pool.at(self.0 as int).wf() && pool.at(self.0 as int).refs_below(pool.len()));
        match pool.get(self.0).get_reference(0x00) {
            Some(x) => Some(vstd::slice::slice_to_vec(pool.get(x).data())),
            None => None,
        }
    }

    /// Palette entry format (0x04).
    pub fn format(&self, pool: &StructPool) -> (r: Result<GxTlutFmt>)
        requires
            pool.wf(),
            self.0 < pool.len(),
        ensures
            r == res_map(pool.at(self.0 as int).u32_field(0x04), |v: u32| GxTlutFmt::of_raw(v)),
    {
        match pool.get(self.0).get_u32(0x04) {
            Ok(v) => Ok(GxTlutFmt::from_raw(v)),
            Err(e) => Err(e),
        }
    }

    /// GX TLUT slot (0x08).
    pub fn gx_tlut(&self, pool: &StructPool) -> (r: Result<i32>)
        requires
            pool.wf(),
            self.0 < pool.len(),
        ensures
            r == pool.at(self.0 as int).i32_field(0x08),
    {
        pool.get(self.0).get_i32(0x08)
    }

    /// Palette entry count (0x0C).
    pub fn color_count(&self, pool: &StructPool) -> (r: Result<i16>)
        requires
            pool.wf(),
            self.0 < pool.len(),
        ensures
            r == pool.at(self.0 as int).i16_field(0x0C),
    {
        pool.get(self.0).get_i16(0x0C)
    }

}

/// HSD_SOBJ (TrimmedSize 0x10): the scene root (`scene_data`).
#[derive(Clone, Copy, Debug, PartialEq, Eq, Structural)]
pub struct SObj(pub StructRef);

impl Accessor for SObj {
    open spec fn struct_ref(&self) -> StructRef {
        self.0
    }

    fn from_struct(s: StructRef) -> (a: Self) {
        SObj(s)
    }

    fn as_struct(&self) -> (r: &StructRef) {
        &self.0
    }
}

/// Offset of the `j`-th 4-byte slot.
pub open spec fn slot_key(j: int) -> u32 {
    (4 * j) as u32
}

/// The targets of a list of scene models.
pub open spec fn desc_refs(out: Seq<JObjDesc>) -> Seq<StructRef> {
    out.map_values(|d: JObjDesc| d.0)
}

/// `out` lists the targets at offsets 0, 4, 8, ... of `s`, in order.
pub open spec fn refs_prefix(s: HsdStruct, out: Seq<StructRef>) -> bool {
    forall|j: int| 0 <= j < out.len() ==> s.ref_at(slot_key(j)) == Some(#[trigger] out[j])
}

/// `out` lists the targets at offsets 0, 4, 8, ... of `s`, up to the first
/// 4-byte slot without a reference.
pub open spec fn null_terminated_refs(s: HsdStruct, out: Seq<StructRef>) -> bool {
    &&& refs_prefix(s, out)
    &&& out.len() < 0x4000_0000 ==> s.ref_at(slot_key(out.len() as int)) is None
}

proof fn lemma_refs_prefix_push(s: HsdStruct, out: Seq<StructRef>, x: StructRef)
    requires
        refs_prefix(s, out),
        s.ref_at(slot_key(out.len() as int)) == Some(x),
    ensures
        refs_prefix(s, out.push(x)),
{
    let o2 = out.push(x);
    assert forall|j: int| 0 <= j < o2.len() implies s.ref_at(slot_key(j)) == Some(
        #[trigger] o2[j],
    ) by {
        if j < out.len() {
            assert(o2[j] == out[j]);
        }
    }
}

impl SObj {
    /// `JOBJDescs`: the slot at 0x00 references an inline array of
    /// references terminated by the first empty 4-byte slot.
    pub fn jobj_descs(&self, pool: &StructPool) -> (out: Vec<JObjDesc>)
        requires
            pool.wf(),
            self.0 < pool.len(),
        ensures
            pool.at(self.0 as int).ref_at(0) is None ==> out@.len() == 0,
            pool.at(self.0 as int).ref_at(0) matches Some(arr) ==> null_terminated_refs(
                pool.at(arr as int),
                desc_refs(out@),
            ),
            forall|i: int| 0 <= i < out@.len() ==> #[trigger] out@[i].0 < pool.len(),
    {
        assert(pool.at(self.0 as int).wf() && pool.at(self.0 as int).refs_below(pool.len()));
        let arr = match pool.get(self.0).get_reference(0) {
            Some(a) => a,
            None => {
                return Vec::new();
            },
        };
        let a = pool.get(arr);
        let mut out: Vec<JObjDesc> = Vec::new();
        let mut i: u32 = 0;
        proof {
            assert(desc_refs(out@) =~= Seq::<StructRef>::empty());
        }
        loop
            invariant
                pool.wf(),
                *a == pool.at(arr as int),
                a.wf(),
                a.refs_below(pool.len()),
                i <= 0x4000_0000,
                out@.len() == i,
                refs_prefix(*a, desc_refs(out@)),
                forall|j: int| 0 <= j < out@.len() ==> #[trigger] out@[j].0 < pool.len(),
            ensures
                null_terminated_refs(*a, desc_refs(out@)),
                forall|j: int| 0 <= j < out@.len() ==> #[trigger] out@[j].0 < pool.len(),
            decreases 0x4000_0000 - i,
        {
            if i == 0x4000_0000 {
                break;
            }
            match a.get_reference(i * 4) {
                Some(child) => {
                    let ghost out0 = out@;
                    proof {
                        assert(desc_refs(out0).len() == i);
                        assert(slot_key(i as int) == i * 4);
                        lemma_refs_prefix_push(*a, desc_refs(out0), child);
                    }
                    out.push(JObjDesc(child));
                    proof {
                        assert(desc_refs(out@) =~= desc_refs(out0).push(child));
                    }
                },
                None => {
                    proof {
                        assert(desc_refs(out@).len() == i);
                        assert(slot_key(i as int) == i * 4);
                    }
                    break;
                },
            }
            i = i + 1;
        }
        out
    }
}


/// HSD_JOBJDesc (TrimmedSize 0x10): one model of the scene.
#[derive(Clone, Copy, Debug, PartialEq, Eq, Structural)]
pub struct JObjDesc(pub StructRef);

impl Accessor for JObjDesc {
    open spec fn struct_ref(&self) -> StructRef {
        self.0
    }

    fn from_struct(s: StructRef) -> (a: Self) {
        JObjDesc(s)
    }

    fn as_struct(&self) -> (r: &StructRef) {
        &self.0
    }
}

impl JObjDesc {
    /// Root joint of the model (0x00).
    pub fn root_joint(&self, pool: &StructPool) -> (r: Option<JObj>)
        requires
            pool.wf(),
            self.0 < pool.len(),
        ensures
            r == (match pool.at(self.0 as int).ref_at(0x00) {
                Some(x) => Some(JObj(x)),
                None => None,
            }),
            r matches Some(t) ==> t.0 < pool.len(),
    {
        assert(pool.at(self.0 as int).wf() && pool.at(self.0 as int).refs_below(pool.len()));
        match pool.get(self.0).get_reference(0x00) {
            Some(x) => Some(JObj(x)),
            None => None,
        }
    }

}

} // verus!