//! Serialising a `Dat` back to a `.dat` image.
//!
//! Layout written:
//! ```text
//!   0x00..0x20   header (filled in last)
//!   0x20..       structs in cache order, each padded per its alignment
//!   ...          4-byte aligned
//!   relocOffset  relocation table (u32 pointer positions)
//!   ...          root + reference symbol entries (data offset, string offset)
//!   ...          string pool (NUL-terminated)
//! ```
//! Every referenced 4-byte slot is overwritten with its target's new offset.
//! The round trip kept is semantic: `parse(write(d))` has the same roots,
//! names, struct contents and aliasing as `d`, not the same bytes as the file
//! `d` was parsed from.  `law_write_then_parse` and
//! `law_write_then_parse_bytes` state the part of it that is proved here:
//! version, counts, symbol names, and each symbol struct's bytes outside its
//! pointer slots.

use crate::be::{be32, be32_bytes, splice, write_u32_at};
use crate::dat::{w32, Dat, RootNode, HEADER_SIZE};
use crate::error::{HsdError, Result};
use crate::hsd_struct::{
    closed_under_refs, dfs_order_ok, seen_matches, walk, HsdStruct, StructPool, StructRef,
};
use crate::offset_map::OffsetMap;
use vstd::prelude::*;

verus! {

/// Options of `write_with_options`.
#[derive(Debug, Clone, Copy)]
pub struct WriteOptions {
    /// 0x20-align structs identified as buffers (textures, display lists).
    pub buffer_align: bool,
    /// Drop unreachable structs from the layout and merge buffers with equal
    /// payload hashes.  Off: the parse order is written as it is.
    pub optimize: bool,
    /// Reserved: trim each root to its type's size.
    pub trim: bool,
}

impl Default for WriteOptions {
    fn default() -> (o: Self)
        ensures
            o.buffer_align,
            o.optimize,
            !o.trim,
    {
        WriteOptions { buffer_align: true, optimize: true, trim: false }
    }
}

/// The buffer predicate: a struct that may be a buffer and either carries
/// no references and more than 0x40 bytes, or is flagged as aligned buffer.
pub open spec fn is_buffer_spec(s: HsdStruct) -> bool {
    s.bufferable() && ((s.refs().dom() =~= Set::<u32>::empty() && s.bytes().len() > 0x40)
        || s.buffer_aligned())
}

/// Whether `s` is laid out as a buffer.
pub fn is_buffer(s: &HsdStruct) -> (b: bool)
    requires
        s.wf(),
    ensures
        b == is_buffer_spec(*s),
{
    if !s.can_be_buffer() {
        return false;
    }
    (s.references().is_empty() && s.len() > 0x40) || s.is_buffer_aligned()
}

// ---------------------------------------------------------------------
// Payload hash
// ---------------------------------------------------------------------

/// FNV-1a state after the bytes of `data`, with 32-bit signed wraparound.
pub open spec fn fnv_state(data: Seq<u8>) -> i32
    decreases data.len(),
{
    if data.len() == 0 {
        -2128831035i32
    } else {
        vstd::wrapping::i32_specs::wrapping_mul(fnv_state(data.drop_last()) ^ (data.last() as i32), 16777619i32)
    }
}

/// Final avalanche of the payload hash.
pub open spec fn hash_mix(h0: i32) -> i32 {
    let h1 = vstd::wrapping::i32_specs::wrapping_add(h0, h0 << 13u32);
    let h2 = h1 ^ (h1 >> 7u32);
    let h3 = vstd::wrapping::i32_specs::wrapping_add(h2, h2 << 3u32);
    let h4 = h3 ^ (h3 >> 17u32);
    vstd::wrapping::i32_specs::wrapping_add(h4, h4 << 5u32)
}

/// Hash of a buffer payload used to find duplicates.
pub open spec fn payload_hash(data: Seq<u8>) -> i32 {
    hash_mix(fnv_state(data))
}

/// FNV-1a with a final avalanche, in 32-bit signed arithmetic.
pub fn compute_hash(data: &[u8]) -> (h: i32)
    ensures
        h == payload_hash(data@),
{
    let p: i32 = 16777619;
    let mut hash: i32 = -2128831035;
    let mut i: usize = 0;
    while i < data.len()
        invariant
            i <= data@.len(),
            p == 16777619i32,
            hash == fnv_state(data@.take(i as int)),
        decreases data@.len() - i,
    {
        proof {
            assert(data@.take(i + 1).drop_last() =~= data@.take(i as int));
            assert(data@.take(i + 1).last() == data@[i as int]);
        }
        let b = data[i];
        let x: i32 = hash ^ (b as i32);
        hash = x.wrapping_mul(p);
        proof {
            let t = data@.take(i + 1);
            assert(t.len() > 0);
            assert(fnv_state(t) == vstd::wrapping::i32_specs::wrapping_mul(
                fnv_state(t.drop_last()) ^ (t.last() as i32),
                16777619i32,
            ));
            assert(hash == fnv_state(data@.take(i + 1)));
        }
        i = i + 1;
    }
    proof {
        assert(data@.take(data@.len() as int) =~= data@);
    }
    hash = hash.wrapping_add(hash << 13u32);
    hash = hash ^ (hash >> 7u32);
    hash = hash.wrapping_add(hash << 3u32);
    hash = hash ^ (hash >> 17u32);
    hash = hash.wrapping_add(hash << 5u32);
    hash
}

// ---------------------------------------------------------------------
// Layout order
// ---------------------------------------------------------------------

proof fn lemma_add_one(c0: Seq<StructRef>, c: Seq<StructRef>, s: StructRef)
    requires
        c == seq![s] + c0 || c == c0.push(s),
        c0.no_duplicates(),
        !c0.contains(s),
    ensures
        forall|x: StructRef| #[trigger] c.contains(x) <==> (c0.contains(x) || x == s),
        c.no_duplicates(),
{
    if c == seq![s] + c0 {
        assert forall|x: StructRef| #[trigger] c.contains(x) <==> (c0.contains(x) || x == s) by {
            if c.contains(x) {
                let m = choose|m: int| 0 <= m < c.len() && c[m] == x;
                if m > 0 {
                    assert(c0[m - 1] == x);
                }
            }
            if c0.contains(x) {
                let m = choose|m: int| 0 <= m < c0.len() && c0[m] == x;
                assert(c[m + 1] == x);
            }
            if x == s {
                assert(c[0] == x);
            }
        }
        assert forall|a: int, b: int| 0 <= a < c.len() && 0 <= b < c.len() && a != b implies c[a]
            != c[b] by {
            if a > 0 && b > 0 {
                assert(c[a] == c0[a - 1] && c[b] == c0[b - 1]);
            } else if a == 0 {
                assert(c[b] == c0[b - 1]);
            } else {
                assert(c[a] == c0[a - 1]);
            }
        }
    } else {
        assert forall|x: StructRef| #[trigger] c.contains(x) <==> (c0.contains(x) || x == s) by {
            if c.contains(x) {
                let m = choose|m: int| 0 <= m < c.len() && c[m] == x;
                if m < c0.len() {
                    assert(c0[m] == x);
                }
            }
            if c0.contains(x) {
                let m = choose|m: int| 0 <= m < c0.len() && c0[m] == x;
                assert(c[m] == x);
            }
            if x == s {
                assert(c[c0.len() as int] == x);
            }
        }
        assert forall|a: int, b: int| 0 <= a < c.len() && 0 <= b < c.len() && a != b implies c[a]
            != c[b] by {
            if a < c0.len() && b < c0.len() {
                assert(c[a] == c0[a] && c[b] == c0[b]);
            } else if a == c0.len() {
                assert(c[b] == c0[b]);
            } else {
                assert(c[a] == c0[a]);
            }
        }
    }
}

/// The write order: the parse order (restricted to reachable structs when
/// `optimize`), then every reachable struct not yet placed, buffers in
/// front and the others at the end.
fn populate_cache(dat: &Dat, opts: WriteOptions, all: &Vec<StructRef>, in_all: &Vec<bool>) -> (cache:
    Vec<StructRef>)
    requires
        dat.wf(),
        in_all@.len() == dat.pool.len(),
        seen_matches(in_all@, all@),
        forall|j: int| 0 <= j < all@.len() ==> #[trigger] all@[j] < dat.pool.len(),
    ensures
        cache@.no_duplicates(),
        forall|j: int| 0 <= j < cache@.len() ==> #[trigger] cache@[j] < dat.pool.len(),
        forall|j: int| 0 <= j < all@.len() ==> cache@.contains(#[trigger] all@[j]),
        forall|j: int|
            0 <= j < cache@.len() ==> all@.contains(#[trigger] cache@[j]) || (!opts.optimize
                && dat.struct_order@.contains(cache@[j])),
        !opts.optimize ==> forall|j: int| 0 <= j < dat.struct_order@.len() ==> cache@.contains(#[trigger] dat.struct_order@[j]),
{
    let n = dat.pool.len_exec();
    let mut seen: Vec<bool> = vec![false; n];
    let mut cache: Vec<StructRef> = Vec::new();
    let mut i: usize = 0;
    while i < dat.struct_order.len()
        invariant
            dat.wf(),
            n == dat.pool.len(),
            in_all@.len() == n,
            seen_matches(in_all@, all@),
            seen@.len() == n,
            seen_matches(seen@, cache@),
            cache@.no_duplicates(),
            forall|j: int| 0 <= j < cache@.len() ==> #[trigger] cache@[j] < n,
            forall|j: int|
                0 <= j < cache@.len() ==> all@.contains(#[trigger] cache@[j]) || (!opts.optimize
                    && dat.struct_order@.contains(cache@[j])),
            i <= dat.struct_order@.len(),
            !opts.optimize ==> forall|j: int| 0 <= j < i ==> cache@.contains(#[trigger] dat.struct_order@[j]),
        decreases dat.struct_order@.len() - i,
    {
        let s = dat.struct_order[i];
        let ghost cb = cache@;
        if (!opts.optimize || in_all[s]) && !seen[s] {
            let ghost c0 = cache@;
            seen.set(s, true);
            cache.push(s);
            proof {
                assert(!c0.contains(s));
                lemma_add_one(c0, cache@, s);
                assert(dat.struct_order@.contains(s));
                assert forall|q: int| 0 <= q < seen@.len() implies (#[trigger] seen@[q]
                    <==> cache@.contains(q as StructRef)) by {
                    if q != s {
                        if cache@.contains(q as StructRef) {
                            let m = choose|m: int| 0 <= m < cache@.len() && cache@[m] == q as StructRef;
                            assert(m < c0.len());
                            assert(c0[m] == q as StructRef);
                        }
                        if c0.contains(q as StructRef) {
                            let m = choose|m: int| 0 <= m < c0.len() && c0[m] == q as StructRef;
                            assert(cache@[m] == q as StructRef);
                        }
                    } else {
                        assert(cache@[c0.len() as int] == s);
                    }
                }
                assert(!c0.contains(s));
            }
        }
        proof {
            if !opts.optimize {
                assert forall|j: int| 0 <= j < i + 1 implies cache@.contains(#[trigger] dat.struct_order@[j]) by {
                    if j < i {
                        assert(cb.contains(dat.struct_order@[j]));
                        let m = choose|m: int| 0 <= m < cb.len() && cb[m] == dat.struct_order@[j];
                        if cache@ != cb {
                            assert(cache@[m] == cb[m]);
                        }
                    } else if cache@ == cb {
                        assert(seen@[s as int]);
                    }
                }
            }
        }
        i = i + 1;
    }
    let mut i: usize = 0;
    while i < all.len()
        invariant
            dat.wf(),
            n == dat.pool.len(),
            forall|j: int| 0 <= j < all@.len() ==> #[trigger] all@[j] < n,
            seen@.len() == n,
            seen_matches(seen@, cache@),
            cache@.no_duplicates(),
            forall|j: int| 0 <= j < cache@.len() ==> #[trigger] cache@[j] < n,
            forall|j: int| 0 <= j < i ==> cache@.contains(#[trigger] all@[j]),
            forall|j: int|
                0 <= j < cache@.len() ==> all@.contains(#[trigger] cache@[j]) || (!opts.optimize
                    && dat.struct_order@.contains(cache@[j])),
            i <= all@.len(),
            !opts.optimize ==> forall|j: int| 0 <= j < dat.struct_order@.len() ==> cache@.contains(#[trigger] dat.struct_order@[j]),
        decreases all@.len() - i,
    {
        let s = all[i];
        if !seen[s] {
            let ghost c0 = cache@;
            seen.set(s, true);
            proof {
                assert(!c0.contains(s));
                assert(all@.contains(s));
            }
            if is_buffer(dat.pool.get(s)) {
                cache.insert(0, s);
                proof {
                    assert(cache@ =~= seq![s] + c0);
                }
            } else {
                cache.push(s);
            }
            proof {
                lemma_add_one(c0, cache@, s);
                assert forall|q: int| 0 <= q < seen@.len() implies (#[trigger] seen@[q]
                    <==> cache@.contains(q as StructRef)) by {
                    assert(cache@.contains(q as StructRef) <==> (c0.contains(q as StructRef) || q
                        == s));
                }
                assert forall|j: int| 0 <= j < cache@.len() implies #[trigger] cache@[j] < n && (
                all@.contains(cache@[j]) || (!opts.optimize && dat.struct_order@.contains(
                    cache@[j],
                ))) by {
                    assert(cache@.contains(cache@[j]));
                    if cache@[j] != s {
                        assert(c0.contains(cache@[j]));
                        let m = choose|m: int| 0 <= m < c0.len() && c0[m] == cache@[j];
                        assert(c0[m] < n);
                    }
                }
                assert forall|j: int| 0 <= j < i + 1 implies cache@.contains(#[trigger] all@[j]) by {
                    if j < i {
                        assert(c0.contains(all@[j]));
                    }
                }
                if !opts.optimize {
                    assert forall|j: int| 0 <= j < dat.struct_order@.len() implies cache@.contains(#[trigger] dat.struct_order@[j]) by {
                        assert(c0.contains(dat.struct_order@[j]));
                    }
                }
            }
        } else {
            proof {
                assert(seen@[s as int]);
                assert(cache@.contains(s));
            }
        }
        i = i + 1;
    }
    cache
}

// ---------------------------------------------------------------------
// Buffer dedup
// ---------------------------------------------------------------------

/// `s` may be merged with a buffer of equal payload: not a root or
/// reference, duplicable, and a buffer.
pub open spec fn dedupable(dat: &Dat, s: StructRef) -> bool {
    &&& !dat.symbol_refs().contains(s)
    &&& dat.pool.at(s as int).duplicable()
    &&& is_buffer_spec(dat.pool.at(s as int))
}

/// Survivor of `t` after the merge.
pub open spec fn redirected(redirect: Seq<Option<StructRef>>, t: StructRef) -> StructRef {
    match redirect[t as int] {
        Some(u) => u,
        None => t,
    }
}

/// `t` survives the merge: kept, unredirected, a dedupable buffer already
/// placed among `pre`.
pub open spec fn survivor(dat: &Dat, pre: Seq<StructRef>, redirect: Seq<Option<StructRef>>, t: StructRef) -> bool {
    &&& t < dat.pool.len()
    &&& pre.contains(t)
    &&& redirect[t as int] is None
    &&& dedupable(dat, t)
}

/// Entry `x` of `redirect` merges `x` into a survivor of equal hash.
pub open spec fn redirect_entry(
    dat: &Dat,
    pre: Seq<StructRef>,
    redirect: Seq<Option<StructRef>>,
    x: int,
) -> bool {
    match redirect[x] {
        Some(t) => {
            &&& t != x
            &&& survivor(dat, pre, redirect, t)
            &&& pre.contains(x as StructRef)
            &&& dedupable(dat, x as StructRef)
            &&& dat.pool.at(x).bytes() == dat.pool.at(t as int).bytes()
        },
        None => true,
    }
}

/// What `find_duplicate_buffers` promises of `redirect`.
pub open spec fn merge_ok(dat: &Dat, cache: Seq<StructRef>, redirect: Seq<Option<StructRef>>) -> bool {
    &&& redirect.len() == dat.pool.len()
    &&& forall|x: int| 0 <= x < redirect.len() ==> #[trigger] redirect_entry(dat, cache, redirect, x)
}

proof fn lemma_contains_push(pre: Seq<StructRef>, s: StructRef, x: StructRef)
    requires
        pre.contains(x),
    ensures
        pre.push(s).contains(x),
{
    let m = choose|m: int| 0 <= m < pre.len() && pre[m] == x;
    assert(pre.push(s)[m] == x);
}

/// The survivors `sv`: each survives, no two hold the same bytes, and
/// every dedupable buffer of `pre` that was not merged is one of them.
pub open spec fn survivors_ok(dat: &Dat, pre: Seq<StructRef>, redirect: Seq<Option<StructRef>>, sv: Seq<StructRef>) -> bool {
    &&& forall|j: int| 0 <= j < sv.len() ==> survivor(dat, pre, redirect, #[trigger] sv[j])
    &&& forall|j1: int, j2: int|
        0 <= j1 < sv.len() && 0 <= j2 < sv.len() && j1 != j2 ==> dat.pool.at(#[trigger] sv[j1] as int).bytes()
            != dat.pool.at(#[trigger] sv[j2] as int).bytes()
    &&& forall|x: StructRef|
        #[trigger] pre.contains(x) && dedupable(dat, x) && redirect[x as int] is None ==> sv.contains(x)
}

/// Byte-equal dedupable buffers of `cache` end up in one struct.
pub open spec fn merge_complete(dat: &Dat, cache: Seq<StructRef>, redirect: Seq<Option<StructRef>>) -> bool {
    forall|x: StructRef, y: StructRef|
        #[trigger] cache.contains(x) && #[trigger] cache.contains(y) && dedupable(dat, x) && dedupable(dat, y)
            && dat.pool.at(x as int).bytes() == dat.pool.at(y as int).bytes() ==> redirected(redirect, x)
            == redirected(redirect, y)
}

proof fn lemma_merge_complete(dat: &Dat, cache: Seq<StructRef>, redirect: Seq<Option<StructRef>>, sv: Seq<StructRef>)
    requires
        redirect.len() == dat.pool.len(),
        forall|j: int| 0 <= j < cache.len() ==> #[trigger] cache[j] < dat.pool.len(),
        forall|x: int| 0 <= x < redirect.len() ==> #[trigger] redirect_entry(dat, cache, redirect, x),
        survivors_ok(dat, cache, redirect, sv),
    ensures
        merge_complete(dat, cache, redirect),
{
    assert forall|x: StructRef, y: StructRef|
        #[trigger] cache.contains(x) && #[trigger] cache.contains(y) && dedupable(dat, x) && dedupable(dat, y)
            && dat.pool.at(x as int).bytes() == dat.pool.at(y as int).bytes() implies redirected(redirect, x)
            == redirected(redirect, y) by {
        let jx = choose|j: int| 0 <= j < cache.len() && cache[j] == x;
        let jy = choose|j: int| 0 <= j < cache.len() && cache[j] == y;
        assert(x < dat.pool.len() && y < dat.pool.len());
        assert(redirect_entry(dat, cache, redirect, x as int));
        assert(redirect_entry(dat, cache, redirect, y as int));
        let rx = redirected(redirect, x);
        let ry = redirected(redirect, y);
        assert(sv.contains(rx));
        assert(sv.contains(ry));
        let ix = choose|j: int| 0 <= j < sv.len() && sv[j] == rx;
        let iy = choose|j: int| 0 <= j < sv.len() && sv[j] == ry;
        if ix != iy {
            assert(dat.pool.at(sv[ix] as int).bytes() != dat.pool.at(sv[iy] as int).bytes());
        }
    }
}

/// Walking `cache` in order, each dedupable buffer (neither a root nor a
/// reference, allowed to be merged) is merged into the first earlier
/// buffer with the same bytes, or survives.  Buffers are compared by payload
/// hash first, then byte by byte.
#[verifier::rlimit(60)]
#[verifier::spinoff_prover]
fn find_duplicate_buffers(dat: &Dat, cache: &Vec<StructRef>) -> (redirect: Vec<Option<StructRef>>)
    requires
        dat.wf(),
        cache@.no_duplicates(),
        forall|j: int| 0 <= j < cache@.len() ==> #[trigger] cache@[j] < dat.pool.len(),
    ensures
        merge_ok(dat, cache@, redirect@),
        merge_complete(dat, cache@, redirect@),
{
    let n = dat.pool.len_exec();
    let mut redirect: Vec<Option<StructRef>> = vec![None; n];
    let starts = crate::dat::symbol_starts(&dat.roots, &dat.references, Ghost(dat.pool.len()));
    let is_root = membership(&starts, n);
    let mut sv: Vec<StructRef> = Vec::new();
    let mut sv_hash: Vec<i32> = Vec::new();
    let mut i: usize = 0;
    proof {
        assert(cache@.subrange(0, 0) =~= Seq::<StructRef>::empty());
    }
    while i < cache.len()
        invariant
            dat.wf(),
            n == dat.pool.len(),
            cache@.no_duplicates(),
            forall|j: int| 0 <= j < cache@.len() ==> #[trigger] cache@[j] < n,
            is_root@.len() == n,
            starts@ == dat.symbol_refs(),
            forall|q: int| 0 <= q < n ==> (#[trigger] is_root@[q] <==> starts@.contains(q as StructRef)),
            i <= cache@.len(),
            redirect@.len() == n,
            sv_hash@.len() == sv@.len(),
            forall|j: int| 0 <= j < sv@.len() ==> #[trigger] sv_hash@[j] == payload_hash(dat.pool.at(sv@[j] as int).bytes()),
            survivors_ok(dat, cache@.subrange(0, i as int), redirect@, sv@),
            forall|x: int|
                0 <= x < redirect@.len() ==> #[trigger] redirect_entry(
                    dat,
                    cache@.subrange(0, i as int),
                    redirect@,
                    x,
                ),
        decreases cache@.len() - i,
    {
        let s = cache[i];
        let ghost pre = cache@.subrange(0, i as int);
        let ghost pre1 = cache@.subrange(0, i + 1);
        let ghost rd0 = redirect@;
        let ghost sv0 = sv@;
        proof {
            assert(pre1 =~= pre.push(s));
            assert(!pre.contains(s)) by {
                if pre.contains(s) {
                    let m = choose|m: int| 0 <= m < pre.len() && pre[m] == s;
                    assert(cache@[m] == cache@[i as int]);
                }
            }
            assert(redirect_entry(dat, pre, rd0, s as int));
            if rd0[s as int] is Some {
                assert(pre.contains(s));
            }
            assert forall|x: StructRef| pre.contains(x) implies #[trigger] pre1.contains(x) by {
                lemma_contains_push(pre, s, x);
            }
            assert(pre1[pre.len() as int] == s);
            assert forall|x: StructRef| #[trigger] pre1.contains(x) implies pre.contains(x) || x == s by {
                let m = choose|m: int| 0 <= m < pre1.len() && pre1[m] == x;
                if m < pre.len() {
                    assert(pre[m] == x);
                }
            }
        }
        let mut dedup = false;
        if !is_root[s] {
            let st = dat.pool.get(s);
            if st.can_be_duplicate() && is_buffer(st) {
                dedup = true;
            }
        }
        proof {
            assert(s < n);
            assert(dat.symbol_refs().contains(s) <==> is_root@[s as int]);
            assert(dedup == dedupable(dat, s));
        }
        let mut found: Option<StructRef> = None;
        if dedup {
            let st = dat.pool.get(s);
            let h = compute_hash(st.data());
            let mut j: usize = 0;
            while j < sv.len()
                invariant
                    j <= sv@.len(),
                    sv@ == sv0,
                    sv_hash@.len() == sv@.len(),
                    forall|q: int| 0 <= q < sv@.len() ==> #[trigger] sv_hash@[q] == payload_hash(dat.pool.at(sv@[q] as int).bytes()),
                    forall|q: int| 0 <= q < sv@.len() ==> #[trigger] sv@[q] < n,
                    n == dat.pool.len(),
                    h == payload_hash(st.bytes()),
                    *st == dat.pool.at(s as int),
                    found matches Some(t) ==> sv@.contains(t) && dat.pool.at(t as int).bytes() == st.bytes(),
                    found is None ==> forall|q: int| 0 <= q < j ==> dat.pool.at(#[trigger] sv@[q] as int).bytes() != st.bytes(),
                ensures
                    found matches Some(t) ==> sv@.contains(t) && dat.pool.at(t as int).bytes() == st.bytes(),
                    found is None ==> forall|q: int| 0 <= q < sv@.len() ==> dat.pool.at(#[trigger] sv@[q] as int).bytes() != st.bytes(),
                decreases sv@.len() - j,
            {
                let t = sv[j];
                if sv_hash[j] == h && bytes_equal(dat.pool.get(t).data(), st.data()) {
                    found = Some(t);
                    proof {
                        assert(sv@[j as int] == t);
                    }
                    break;
                }
                j = j + 1;
            }
            proof {
                if found is None {
                    assert(forall|q: int| 0 <= q < sv@.len() ==> dat.pool.at(#[trigger] sv@[q] as int).bytes() != st.bytes());
                }
            }
        }
        match found {
            Some(t) => {
                proof {
                    assert(survivor(dat, pre, rd0, t));
                    assert(t != s);
                }
                redirect.set(s, Some(t));
                proof {
                    assert forall|x: int| 0 <= x < redirect@.len() implies #[trigger] redirect_entry(dat, pre1, redirect@, x) by {
                        assert(redirect_entry(dat, pre, rd0, x));
                        if let Some(u) = rd0[x] {
                            assert(pre.contains(u));
                            assert(u != s);
                        }
                    }
                    assert forall|q: int| 0 <= q < sv@.len() implies survivor(dat, pre1, redirect@, #[trigger] sv@[q]) by {
                        assert(survivor(dat, pre, rd0, sv@[q]));
                        assert(sv@[q] != s);
                    }
                    assert forall|x: StructRef|
                        #[trigger] pre1.contains(x) && dedupable(dat, x) && redirect@[x as int] is None implies sv@.contains(x) by {
                        assert(pre.contains(x));
                    }
                }
            },
            None => {
                if dedup {
                    let st = dat.pool.get(s);
                    let h = compute_hash(st.data());
                    sv.push(s);
                    sv_hash.push(h);
                    proof {
                        assert forall|q: int| 0 <= q < sv@.len() implies #[trigger] sv_hash@[q] == payload_hash(
                            dat.pool.at(sv@[q] as int).bytes(),
                        ) by {
                            if q < sv0.len() {
                                assert(sv@[q] == sv0[q]);
                            }
                        }
                        assert forall|q: int| 0 <= q < sv@.len() implies survivor(dat, pre1, redirect@, #[trigger] sv@[q]) by {
                            if q < sv0.len() {
                                assert(sv@[q] == sv0[q]);
                                assert(survivor(dat, pre, rd0, sv0[q]));
                            }
                        }
                        assert forall|j1: int, j2: int|
                            0 <= j1 < sv@.len() && 0 <= j2 < sv@.len() && j1 != j2 implies dat.pool.at(#[trigger] sv@[j1] as int).bytes()
                            != dat.pool.at(#[trigger] sv@[j2] as int).bytes() by {
                            if j1 < sv0.len() && j2 < sv0.len() {
                                assert(sv@[j1] == sv0[j1] && sv@[j2] == sv0[j2]);
                            } else if j1 < sv0.len() {
                                assert(sv@[j1] == sv0[j1]);
                                assert(dat.pool.at(sv0[j1] as int).bytes() != st.bytes());
                            } else {
                                assert(sv@[j2] == sv0[j2]);
                                assert(dat.pool.at(sv0[j2] as int).bytes() != st.bytes());
                            }
                        }
                        assert forall|x: StructRef|
                            #[trigger] pre1.contains(x) && dedupable(dat, x) && redirect@[x as int] is None implies sv@.contains(x) by {
                            if x == s {
                                assert(sv@[sv0.len() as int] == s);
                            } else {
                                assert(pre.contains(x));
                                assert(sv0.contains(x));
                                let m = choose|m: int| 0 <= m < sv0.len() && sv0[m] == x;
                                assert(sv@[m] == x);
                            }
                        }
                    }
                } else {
                    proof {
                        assert forall|q: int| 0 <= q < sv@.len() implies survivor(dat, pre1, redirect@, #[trigger] sv@[q]) by {
                            assert(survivor(dat, pre, rd0, sv@[q]));
                        }
                        assert forall|x: StructRef|
                            #[trigger] pre1.contains(x) && dedupable(dat, x) && redirect@[x as int] is None implies sv@.contains(x) by {
                            assert(pre.contains(x));
                        }
                    }
                }
                proof {
                    assert forall|x: int| 0 <= x < redirect@.len() implies #[trigger] redirect_entry(dat, pre1, redirect@, x) by {
                        assert(redirect_entry(dat, pre, rd0, x));
                    }
                }
            },
        }
        i = i + 1;
    }
    proof {
        assert(cache@.subrange(0, cache@.len() as int) =~= cache@);
        lemma_merge_complete(dat, cache@, redirect@, sv@);
    }
    redirect
}

/// `a` and `b` hold the same bytes.
fn bytes_equal(a: &[u8], b: &[u8]) -> (r: bool)
    ensures
        r == (a@ == b@),
{
    if a.len() != b.len() {
        return false;
    }
    let mut i: usize = 0;
    while i < a.len()
        invariant
            a@.len() == b@.len(),
            i <= a@.len(),
            forall|j: int| 0 <= j < i ==> a@[j] == b@[j],
        decreases a@.len() - i,
    {
        if a[i] != b[i] {
            return false;
        }
        i = i + 1;
    }
    proof {
        assert(a@ =~= b@);
    }
    true
}

/// `r[q]` tells whether `q` occurs in `v`.
fn membership(v: &Vec<StructRef>, n: usize) -> (r: Vec<bool>)
    requires
        forall|i: int| 0 <= i < v@.len() ==> #[trigger] v@[i] < n,
    ensures
        r@.len() == n,
        forall|q: int| 0 <= q < n ==> (#[trigger] r@[q] <==> v@.contains(q as StructRef)),
{
    let mut r: Vec<bool> = vec![false; n];
    let mut k: usize = 0;
    while k < v.len()
        invariant
            r@.len() == n,
            forall|i: int| 0 <= i < v@.len() ==> #[trigger] v@[i] < n,
            k <= v@.len(),
            forall|q: int| 0 <= q < n ==> (#[trigger] r@[q] <==> v@.take(k as int).contains(q as StructRef)),
        decreases v@.len() - k,
    {
        r.set(v[k], true);
        proof {
            assert forall|q: int| 0 <= q < n implies (#[trigger] r@[q] <==> v@.take(k + 1).contains(
                q as StructRef,
            )) by {
                let t1 = v@.take(k + 1);
                let t0 = v@.take(k as int);
                if t1.contains(q as StructRef) {
                    let m = choose|m: int| 0 <= m < t1.len() && t1[m] == q as StructRef;
                    if m < k {
                        assert(t0[m] == q as StructRef);
                    }
                }
                if t0.contains(q as StructRef) {
                    let m = choose|m: int| 0 <= m < t0.len() && t0[m] == q as StructRef;
                    assert(t1[m] == q as StructRef);
                }
                if q == v@[k as int] {
                    assert(t1[k as int] == q as StructRef);
                }
            }
        }
        k = k + 1;
    }
    proof {
        assert(v@.take(v@.len() as int) =~= v@);
    }
    r
}

// ---------------------------------------------------------------------
// Emit
// ---------------------------------------------------------------------

/// `n` rounded up to a multiple of `a`.
pub open spec fn round_up(n: int, a: int) -> int {
    n + (a - n % a) % a
}

/// Pad `out` with zeros up to a multiple of `a`.
fn align_to(out: &mut Vec<u8>, a: usize)
    requires
        a > 0,
        old(out)@.len() + a <= usize::MAX,
    ensures
        final(out)@.len() == round_up(old(out)@.len() as int, a as int),
        final(out)@.subrange(0, old(out)@.len() as int) == old(out)@,
        forall|i: int| old(out)@.len() <= i < final(out)@.len() ==> final(out)@[i] == 0,
{
    let cur = out.len();
    let pad = (a - cur % a) % a;
    let ghost o0 = out@;
    let mut k: usize = 0;
    while k < pad
        invariant
            k <= pad,
            pad < a,
            cur == o0.len(),
            cur + a <= usize::MAX,
            out@.len() == cur + k,
            out@.subrange(0, cur as int) == o0,
            forall|i: int| cur <= i < out@.len() ==> out@[i] == 0,
        decreases pad - k,
    {
        out.push(0);
        proof {
            assert(out@.subrange(0, cur as int) =~= o0);
        }
        k = k + 1;
    }
}

/// Slots named by the first word of each link of a reference chain, after
/// the merge: their offset-0 pointer is written but not relocated.
fn ref_chain_skip(dat: &Dat, redirect: &Vec<Option<StructRef>>) -> (skip: Vec<bool>)
    requires
        dat.wf(),
        redirect@.len() == dat.pool.len(),
        forall|x: int| 0 <= x < redirect@.len() ==> (#[trigger] redirect@[x] matches Some(t) ==> t
            < dat.pool.len()),
    ensures
        skip@.len() == dat.pool.len(),
        dat.references@.len() == 0 ==> forall|x: int| 0 <= x < skip@.len() ==> !#[trigger] skip@[x],
{
    let n = dat.pool.len_exec();
    let mut skip: Vec<bool> = vec![false; n];
    let mut i: usize = 0;
    while i < dat.references.len()
        invariant
            dat.wf(),
            n == dat.pool.len(),
            skip@.len() == n,
            redirect@.len() == n,
            dat.references@.len() == 0 ==> forall|x: int| 0 <= x < skip@.len() ==> !#[trigger] skip@[x],
            forall|x: int| 0 <= x < redirect@.len() ==> (#[trigger] redirect@[x] matches Some(t) ==> t
                < n),
        decreases dat.references@.len() - i,
    {
        let mut current = dat.references[i].data;
        let mut steps: usize = 0;
        while steps < n
            invariant
                dat.wf(),
                n == dat.pool.len(),
                skip@.len() == n,
                redirect@.len() == n,
                dat.references@.len() == 0 ==> forall|x: int| 0 <= x < skip@.len() ==> !#[trigger] skip@[x],
                i < dat.references@.len(),
                current < n,
                forall|x: int| 0 <= x < redirect@.len() ==> (#[trigger] redirect@[x] matches Some(t)
                    ==> t < n),
            decreases n - steps,
        {
            assert(dat.pool.at(current as int).wf());
            match dat.pool.get(current).get_reference(0) {
                Some(next) => {
                    let next = match redirect[next] {
                        Some(u) => u,
                        None => next,
                    };
                    skip.set(next, true);
                    if next == current {
                        break;
                    }
                    current = next;
                    steps = steps + 1;
                },
                None => {
                    break;
                },
            }
        }
        i = i + 1;
    }
    skip
}

/// The header facts of a written image.
pub open spec fn header_ok(dat: &Dat, w: Seq<u8>) -> bool {
    &&& w.len() >= HEADER_SIZE
    &&& be32(w, 0) == crate::dat::w32(w.len() as int)
    &&& be32(w, 12) == crate::dat::w32(dat.roots@.len() as int)
    &&& be32(w, 16) == crate::dat::w32(dat.references@.len() as int)
    &&& w.subrange(0x14, 0x18) == dat.version@
}

/// Name of the `k`-th symbol of `dat`: the roots, then the references.
pub open spec fn symbol_name(dat: &Dat, k: int) -> Seq<char> {
    if k < dat.roots@.len() {
        dat.roots@[k].name@
    } else {
        dat.references@[k - dat.roots@.len()].name@
    }
}

/// `w` holds `name`, UTF-8 encoded and NUL-terminated, at `p`.
pub open spec fn string_at(w: Seq<u8>, p: int, name: Seq<char>) -> bool {
    let enc = vstd::utf8::encode_utf8(name);
    &&& 0 <= p
    &&& p + enc.len() < w.len()
    &&& w.subrange(p, p + enc.len()) == enc
    &&& w[p + enc.len()] == 0
}

/// The `k`-th symbol entry of `w` lies in `w` and points at `name`.
pub open spec fn name_written(w: Seq<u8>, k: int, name: Seq<char>) -> bool {
    let e = crate::dat::symbol_entry(w, k);
    &&& e + 8 <= w.len()
    &&& string_at(w, crate::dat::symbol_name_pos(w, e) as int, name)
}

/// Every symbol name of `dat` is where the symbol table of `w` points.
pub open spec fn names_written(dat: &Dat, w: Seq<u8>) -> bool {
    forall|k: int|
        0 <= k < dat.roots@.len() + dat.references@.len() ==> #[trigger] name_written(w, k, symbol_name(dat, k))
}

/// No symbol name of `dat` holds a NUL character.
pub open spec fn names_without_nul(dat: &Dat) -> bool {
    forall|k: int, c: int|
        0 <= k < dat.roots@.len() + dat.references@.len() && 0 <= c < symbol_name(dat, k).len()
            ==> #[trigger] symbol_name(dat, k)[c] as u32 != 0
}

proof fn lemma_scalar_no_nul(v: u32)
    requires
        v != 0,
    ensures
        forall|j: int| 0 <= j < vstd::utf8::encode_scalar(v).len() ==> #[trigger] vstd::utf8::encode_scalar(v)[j] != 0,
{
    assert(v != 0 && v <= 0x7F ==> vstd::utf8::leading_byte_width_1(v) != 0) by (bit_vector);
    assert(vstd::utf8::leading_byte_width_2(v) != 0) by (bit_vector);
    assert(vstd::utf8::leading_byte_width_3(v) != 0) by (bit_vector);
    assert(vstd::utf8::leading_byte_width_4(v) != 0) by (bit_vector);
    assert(vstd::utf8::last_continuation_byte(v) != 0) by (bit_vector);
    assert(vstd::utf8::second_last_continuation_byte(v) != 0) by (bit_vector);
    assert(vstd::utf8::third_last_continuation_byte(v) != 0) by (bit_vector);
}

/// The UTF-8 encoding of characters other than NUL has no zero byte.
proof fn lemma_encode_no_nul(chars: Seq<char>)
    requires
        forall|c: int| 0 <= c < chars.len() ==> #[trigger] chars[c] as u32 != 0,
    ensures
        forall|j: int| 0 <= j < vstd::utf8::encode_utf8(chars).len() ==> #[trigger] vstd::utf8::encode_utf8(chars)[j] != 0,
    decreases chars.len(),
{
    if chars.len() > 0 {
        let rest = chars.drop_first();
        lemma_encode_no_nul(rest);
        assert(chars[0] as u32 != 0);
        assert forall|c: int| 0 <= c < rest.len() implies #[trigger] rest[c] as u32 != 0 by {
            assert(rest[c] == chars[c + 1]);
        }
        lemma_scalar_no_nul(chars[0] as u32);
        let a = vstd::utf8::encode_scalar(chars[0] as u32);
        let b = vstd::utf8::encode_utf8(rest);
        assert(vstd::utf8::encode_utf8(chars) == a + b);
        assert forall|j: int| 0 <= j < (a + b).len() implies #[trigger] (a + b)[j] != 0 by {
            if j < a.len() {
                assert(a[j] != 0);
            } else {
                assert(b[j - a.len()] != 0);
            }
        }
    }
}

proof fn lemma_nul_len(s: Seq<u8>, n: int)
    requires
        0 <= n < s.len(),
        s[n] == 0,
        forall|j: int| 0 <= j < n ==> #[trigger] s[j] != 0,
    ensures
        crate::hsd_struct::nul_terminated_len(s) == n,
    decreases n,
{
    if n > 0 {
        let t = s.drop_first();
        assert forall|j: int| 0 <= j < n - 1 implies #[trigger] t[j] != 0 by {
            assert(s[j + 1] != 0);
        }
        lemma_nul_len(t, n - 1);
    }
}

/// The symbol text stored where `name` was written is `name`.
proof fn lemma_symbol_text(w: Seq<u8>, p: int, name: Seq<char>)
    requires
        string_at(w, p, name),
        forall|c: int| 0 <= c < name.len() ==> #[trigger] name[c] as u32 != 0,
    ensures
        p < w.len(),
        crate::hsd_struct::symbol_text(w.skip(p)) == name,
        crate::hsd_struct::symbol_valid(w.skip(p)),
{
    broadcast use vstd::utf8::encode_utf8_decode_utf8;
    broadcast use vstd::utf8::encode_utf8_valid_utf8;
    let enc = vstd::utf8::encode_utf8(name);
    let s = w.skip(p);
    lemma_encode_no_nul(name);
    assert forall|j: int| 0 <= j < enc.len() implies #[trigger] s[j] != 0 by {
        assert(s[j] == w.subrange(p, p + enc.len())[j]);
    }
    assert(s[enc.len() as int] == 0);
    lemma_nul_len(s, enc.len() as int);
    assert(s.take(enc.len() as int) =~= enc);
}

/// `v` below 2^32 is its own 32-bit reduction.
proof fn lemma_w32_id(v: int)
    requires
        0 <= v < 0x1_0000_0000,
    ensures
        crate::dat::w32(v) == v,
{
}

/// Struct of the `k`-th symbol of `dat`: the roots, then the references.
pub open spec fn symbol_data(dat: &Dat, k: int) -> StructRef {
    if k < dat.roots@.len() {
        dat.roots@[k].data
    } else {
        dat.references@[k - dat.roots@.len()].data
    }
}

/// Symbol entry `k` of `w` holds the offset its struct was laid at.
pub open spec fn data_entry(w: Seq<u8>, dat: &Dat, offs: Seq<Option<u32>>, k: int) -> bool {
    offs[symbol_data(dat, k) as int] matches Some(o) && be32(w, crate::dat::symbol_entry(w, k) as int) == o
}

/// Symbol entry `k` of the table at `ssa` holds its struct's offset.
pub open spec fn data_ok(w: Seq<u8>, ssa: int, offs: Seq<Option<u32>>, dat: &Dat, k: int) -> bool {
    offs[symbol_data(dat, k) as int] matches Some(o) && be32(w, ssa + 8 * k) == o
}

/// The parser's table positions of an image whose tables follow the
/// structs at `reloc_abs`.
proof fn lemma_table_pos(dat: &Dat, w: Seq<u8>, reloc_abs: int, nrel: int)
    requires
        w.len() < 0x1_0000_0000,
        0x20 <= reloc_abs,
        0 <= nrel,
        be32(w, 4) == crate::dat::w32(reloc_abs - 0x20),
        be32(w, 8) == crate::dat::w32(nrel),
        be32(w, 12) == crate::dat::w32(dat.roots@.len() as int),
        be32(w, 16) == crate::dat::w32(dat.references@.len() as int),
        reloc_abs + 4 * nrel + 8 * (dat.roots@.len() + dat.references@.len()) <= w.len(),
    ensures
        crate::dat::symbol_table_pos(w) == reloc_abs + 4 * nrel,
        crate::dat::string_pool_pos(w) == reloc_abs + 4 * nrel + 8 * (dat.roots@.len() + dat.references@.len()),
        forall|k: int|
            0 <= k < dat.roots@.len() + dat.references@.len() ==> #[trigger] crate::dat::symbol_entry(w, k)
                == reloc_abs + 4 * nrel + 8 * k,
{
    let n = dat.roots@.len() + dat.references@.len();
    let ssa = reloc_abs + 4 * nrel;
    lemma_w32_id(reloc_abs - 0x20);
    lemma_w32_id(nrel);
    lemma_w32_id(dat.roots@.len() as int);
    lemma_w32_id(dat.references@.len() as int);
    lemma_w32_id(ssa);
    lemma_w32_id(ssa + 8 * n);
    assert(crate::dat::hdr(w, 1) == reloc_abs - 0x20);
    assert forall|k: int| 0 <= k < n implies #[trigger] crate::dat::symbol_entry(w, k) == ssa + 8 * k by {
        lemma_w32_id(ssa + k * 8);
    }
}

/// Where the tables of a written image sit, the parser's table positions
/// find the names.
proof fn lemma_names_located(
    dat: &Dat,
    w: Seq<u8>,
    reloc_abs: int,
    nrel: int,
    pos: Seq<int>,
    offs: Seq<u32>,
)
    requires
        w.len() < 0x1_0000_0000,
        0x20 <= reloc_abs,
        0 <= nrel,
        be32(w, 4) == crate::dat::w32(reloc_abs - 0x20),
        be32(w, 8) == crate::dat::w32(nrel),
        be32(w, 12) == crate::dat::w32(dat.roots@.len() as int),
        be32(w, 16) == crate::dat::w32(dat.references@.len() as int),
        reloc_abs + 4 * nrel + 8 * (dat.roots@.len() + dat.references@.len()) <= w.len(),
        pos.len() == dat.roots@.len() + dat.references@.len(),
        offs.len() == pos.len(),
        forall|k: int| 0 <= k < pos.len() ==> #[trigger] entry_ok(w, reloc_abs + 4 * nrel, offs, k),
        forall|k: int|
            0 <= k < pos.len() ==> #[trigger] placed(
                w,
                dat,
                pos,
                offs,
                reloc_abs + 4 * nrel + 8 * (dat.roots@.len() + dat.references@.len()),
                k,
            ),
    ensures
        names_written(dat, w),
{
    let n = dat.roots@.len() + dat.references@.len();
    let ssa = reloc_abs + 4 * nrel;
    let spa = ssa + 8 * n;
    lemma_w32_id(reloc_abs - 0x20);
    lemma_w32_id(nrel);
    lemma_w32_id(dat.roots@.len() as int);
    lemma_w32_id(dat.references@.len() as int);
    lemma_w32_id(ssa);
    lemma_w32_id(spa);
    assert(crate::dat::hdr(w, 1) == reloc_abs - 0x20);
    assert(crate::dat::reloc_table_pos(w) == reloc_abs);
    assert(crate::dat::symbol_table_pos(w) == ssa);
    assert(crate::dat::string_pool_pos(w) == spa);
    assert forall|k: int| 0 <= k < n implies #[trigger] name_written(w, k, symbol_name(dat, k)) by {
        assert(entry_ok(w, ssa, offs, k));
        assert(placed(w, dat, pos, offs, spa, k));
        lemma_w32_id(ssa + k * 8);
        assert(crate::dat::symbol_entry(w, k) == ssa + 8 * k);
        lemma_w32_id(ssa + 8 * k + 4);
        lemma_w32_id(pos[k] - spa);
        lemma_w32_id(pos[k]);
        assert(be32(w, crate::dat::w32(ssa + 8 * k + 4) as int) == offs[k]);
        assert(crate::dat::symbol_name_pos(w, crate::dat::symbol_entry(w, k)) == pos[k]);
    }
}

/// Symbol entry `k` of the table at `ssa` holds string offset `offs[k]`.
pub open spec fn entry_ok(w: Seq<u8>, ssa: int, offs: Seq<u32>, k: int) -> bool {
    be32(w, ssa + 8 * k + 4) == offs[k]
}

/// Name `j` sits at `pos[j]`, `offs[j]` bytes into the pool at `spa`.
pub open spec fn placed(w: Seq<u8>, dat: &Dat, pos: Seq<int>, offs: Seq<u32>, spa: int, j: int) -> bool {
    &&& spa <= pos[j]
    &&& offs[j] == crate::dat::w32(pos[j] - spa)
    &&& string_at(w, pos[j], symbol_name(dat, j))
}

/// Parsing what `write` produced gives back the version and every root and
/// reference under its name, in order.  Left out: images of 4 GiB or more
/// and counts past 32 bits (the header and the tables hold 32-bit offsets
/// and counts), and names holding a NUL character (a NUL ends a name).
pub proof fn law_write_then_parse(dat: &Dat, w: Seq<u8>, back: &Dat)
    requires
        header_ok(dat, w),
        w.len() < 0x1_0000_0000 ==> names_written(dat, w),
        crate::dat::parsed_from(back, w),
        w.len() < 0x1_0000_0000,
        dat.roots@.len() < 0x1_0000_0000,
        dat.references@.len() < 0x1_0000_0000,
        names_without_nul(dat),
    ensures
        back.version@ == dat.version@,
        back.roots@.len() == dat.roots@.len(),
        back.references@.len() == dat.references@.len(),
        forall|i: int| 0 <= i < dat.roots@.len() ==> #[trigger] back.roots@[i].name@ == dat.roots@[i].name@,
        forall|i: int|
            0 <= i < dat.references@.len() ==> #[trigger] back.references@[i].name@ == dat.references@[i].name@,
{
    assert(crate::dat::hdr(w, 3) == be32(w, 12));
    assert(crate::dat::hdr(w, 4) == be32(w, 16));
    lemma_w32_id(dat.roots@.len() as int);
    lemma_w32_id(dat.references@.len() as int);
    let nr = dat.roots@.len() as int;
    assert forall|i: int| 0 <= i < dat.roots@.len() implies #[trigger] back.roots@[i].name@ == dat.roots@[i].name@ by {
        assert(crate::dat::symbol_matches(w, &back.pool, i, back.roots@[i]));
        assert(name_written(w, i, symbol_name(dat, i)));
        assert forall|c: int| 0 <= c < symbol_name(dat, i).len() implies #[trigger] symbol_name(dat, i)[c] as u32 != 0 by {}
        lemma_symbol_text(
            w,
            crate::dat::symbol_name_pos(w, crate::dat::symbol_entry(w, i)) as int,
            symbol_name(dat, i),
        );
    }
    assert forall|i: int|
        0 <= i < dat.references@.len() implies #[trigger] back.references@[i].name@ == dat.references@[i].name@ by {
        assert(crate::dat::symbol_matches(w, &back.pool, crate::dat::hdr(w, 3) + i, back.references@[i]));
        assert(name_written(w, nr + i, symbol_name(dat, nr + i)));
        assert forall|c: int| 0 <= c < symbol_name(dat, nr + i).len() implies #[trigger] symbol_name(dat, nr + i)[c]
            as u32 != 0 by {}
        lemma_symbol_text(
            w,
            crate::dat::symbol_name_pos(w, crate::dat::symbol_entry(w, nr + i)) as int,
            symbol_name(dat, nr + i),
        );
    }
}

/// Bytes `b` sit at offset `o` of the struct region of `w` (that is, at
/// `w[0x20 + o ..]`).
pub open spec fn laid(w: Seq<u8>, o: int, b: Seq<u8>) -> bool {
    &&& 0 <= o
    &&& 0x20 + o + b.len() <= w.len()
    &&& w.subrange(0x20 + o, 0x20 + o + b.len()) == b
}

/// Struct `x`, when it has an offset, sits there.
pub open spec fn laid_at(w: Seq<u8>, offs: Seq<Option<u32>>, pool: &StructPool, x: int) -> bool {
    offs[x] matches Some(o) ==> laid(w, o as int, pool.at(x).bytes())
}

/// Structs `x` and `y`, when both have offsets, do not overlap.
pub open spec fn apart(offs: Seq<Option<u32>>, pool: &StructPool, x: int, y: int) -> bool {
    offs[x] matches Some(ox) ==> (offs[y] matches Some(oy) ==> (ox + pool.at(x).bytes().len() <= oy || oy
        + pool.at(y).bytes().len() <= ox))
}

/// The layout facts of `lay_out`'s image (offsets fit 32 bits below 4 GiB).
pub open spec fn layout_ok(w: Seq<u8>, offs: Seq<Option<u32>>, pool: &StructPool) -> bool {
    &&& forall|x: int| 0 <= x < offs.len() ==> #[trigger] laid_at(w, offs, pool, x)
    &&& forall|x: int, y: int|
        0 <= x < offs.len() && 0 <= y < offs.len() && x != y ==> #[trigger] apart(offs, pool, x, y)
}

/// Append `bytes` to `out`.
fn append_bytes(out: &mut Vec<u8>, bytes: &[u8])
    requires
        old(out)@.len() + bytes@.len() <= usize::MAX,
    ensures
        final(out)@ == old(out)@ + bytes@,
{
    let ghost o0 = out@;
    let mut b: usize = 0;
    while b < bytes.len()
        invariant
            b <= bytes@.len(),
            out@ == o0 + bytes@.subrange(0, b as int),
        decreases bytes@.len() - b,
    {
        out.push(bytes[b]);
        proof {
            assert(o0 + bytes@.subrange(0, b + 1) =~= (o0 + bytes@.subrange(0, b as int)).push(bytes@[b as int]));
        }
        b = b + 1;
    }
    proof {
        assert(bytes@.subrange(0, bytes@.len() as int) =~= bytes@);
    }
}

/// Room the first `i` structs of `cache` take at most when laid out: each
/// one's bytes and up to 0x20 bytes of padding before it.
pub open spec fn laid_size(pool: &StructPool, cache: Seq<StructRef>, i: int) -> int
    decreases i,
{
    if i <= 0 {
        0
    } else {
        laid_size(pool, cache, i - 1) + pool.at(cache[i - 1] as int).bytes().len() + 0x20
    }
}

proof fn lemma_laid_size_mono(pool: &StructPool, cache: Seq<StructRef>, i: int, j: int)
    requires
        0 <= i <= j,
    ensures
        laid_size(pool, cache, i) <= laid_size(pool, cache, j),
    decreases j - i,
{
    if i < j {
        lemma_laid_size_mono(pool, cache, i, j - 1);
    }
}

/// Place the structs of `cache` after the header, each aligned as its flags
/// ask; returns the image so far and each struct's offset (relative to the
/// end of the header).  It fails only when the image would not fit in memory.
#[verifier::rlimit(40)]
fn lay_out(dat: &Dat, opts: WriteOptions, cache: &Vec<StructRef>) -> (r: Result<(Vec<u8>, Vec<Option<u32>>)>)
    requires
        dat.wf(),
        forall|j: int| 0 <= j < cache@.len() ==> #[trigger] cache@[j] < dat.pool.len(),
    ensures
        r matches Ok((out, offset_of)) ==> out@.len() >= 0x20 && offset_of@.len() == dat.pool.len()
            && out@.len() % 4 == 0 && out@.len() <= usize::MAX - 8,
        r matches Ok((out, offset_of)) ==> (out@.len() < 0x1_0000_0000 ==> layout_ok(out@, offset_of@, &dat.pool)),
        r matches Ok((out, offset_of)) ==> forall|x: int|
            0 <= x < offset_of@.len() ==> (#[trigger] offset_of@[x] is Some <==> cache@.contains(x as StructRef)),
        r matches Ok((out, offset_of)) ==> out@.len() <= 0x24 + laid_size(&dat.pool, cache@, cache@.len() as int),
        0x80 + laid_size(&dat.pool, cache@, cache@.len() as int) <= usize::MAX ==> r is Ok,
{
    let n = dat.pool.len_exec();
    let mut out: Vec<u8> = vec![0u8; 0x20];
    let mut offset_of: Vec<Option<u32>> = vec![None; n];
    proof {
        assert(cache@.subrange(0, 0) =~= Seq::<StructRef>::empty());
        assert forall|x: int| 0 <= x < offset_of@.len() implies #[trigger] laid_at(out@, offset_of@, &dat.pool, x) by {}
        assert forall|x: int, y: int|
            0 <= x < offset_of@.len() && 0 <= y < offset_of@.len() && x != y implies #[trigger] apart(
            offset_of@,
            &dat.pool,
            x,
            y,
        ) by {}
    }
    let mut i: usize = 0;
    while i < cache.len()
        invariant
            dat.wf(),
            n == dat.pool.len(),
            offset_of@.len() == n,
            out@.len() >= 0x20,
            forall|j: int| 0 <= j < cache@.len() ==> #[trigger] cache@[j] < n,
            out@.len() < 0x1_0000_0000 ==> layout_ok(out@, offset_of@, &dat.pool),
            i <= cache@.len(),
            forall|x: int| 0 <= x < n ==> (#[trigger] offset_of@[x] is Some <==> cache@.subrange(0, i as int).contains(x as StructRef)),
            out@.len() <= 0x20 + laid_size(&dat.pool, cache@, i as int),
        decreases cache@.len() - i,
    {
        let s = cache[i];
        let st = dat.pool.get(s);
        proof {
            lemma_laid_size_mono(&dat.pool, cache@, i + 1, cache@.len() as int);
        }
        if out.len() > usize::MAX - 0x40 || st.len() > usize::MAX - 0x40 - out.len() {
            return Err(HsdError::malformed(out.len() as u64, "writer: image too large"));
        }
        let ghost o0 = out@;
        let ghost f0 = offset_of@;
        if is_buffer(st) && opts.buffer_align {
            align_to(&mut out, 0x20);
        } else if st.align() {
            align_to(&mut out, 4);
        }
        let ghost o1 = out@;
        assert(o1.subrange(0, o0.len() as int) == o0);
        let off: u32 = #[verifier::truncate] ((out.len() - 0x20) as u32);
        proof {
            lemma_trunc32((out.len() - 0x20) as usize);
        }
        offset_of.set(s, Some(off));
        append_bytes(&mut out, st.data());
        proof {
            assert forall|x: int| 0 <= x < n implies (#[trigger] offset_of@[x] is Some <==> cache@.subrange(0, i + 1).contains(x as StructRef)) by {
                if cache@.subrange(0, i + 1).contains(x as StructRef) && x != s {
                    let m = choose|m: int| 0 <= m < i + 1 && #[trigger] cache@.subrange(0, i + 1)[m] == x as StructRef;
                    assert(cache@.subrange(0, i as int)[m] == x as StructRef);
                }
                if cache@.subrange(0, i as int).contains(x as StructRef) {
                    let m = choose|m: int| 0 <= m < i && #[trigger] cache@.subrange(0, i as int)[m] == x as StructRef;
                    assert(cache@.subrange(0, i + 1)[m] == x as StructRef);
                }
                if x == s {
                    assert(cache@.subrange(0, i + 1)[i as int] == x as StructRef);
                }
            }
            let o2 = out@;
            if o2.len() < 0x1_0000_0000 {
                assert(o1.len() - 0x20 < 0x1_0000_0000);
                assert(off as int == o1.len() - 0x20);
                assert(layout_ok(o0, f0, &dat.pool));
                assert forall|x: int| 0 <= x < offset_of@.len() implies #[trigger] laid_at(
                    o2,
                    offset_of@,
                    &dat.pool,
                    x,
                ) by {
                    if x == s {
                        assert(o2.subrange(0x20 + off, 0x20 + off + st.bytes().len()) =~= st.bytes());
                    } else {
                        assert(offset_of@[x] == f0[x]);
                        assert(laid_at(o0, f0, &dat.pool, x));
                        if let Some(o) = f0[x] {
                            let b = dat.pool.at(x).bytes();
                            assert forall|t: int| 0x20 + o <= t < 0x20 + o + b.len() implies o2[t] == o0[t] by {
                                assert(o1[t] == o0[t]);
                            }
                            assert(o2.subrange(0x20 + o, 0x20 + o + b.len()) =~= o0.subrange(
                                0x20 + o,
                                0x20 + o + b.len(),
                            ));
                        }
                    }
                }
                assert forall|x: int, y: int|
                    0 <= x < offset_of@.len() && 0 <= y < offset_of@.len() && x != y implies #[trigger] apart(
                    offset_of@,
                    &dat.pool,
                    x,
                    y,
                ) by {
                    if x != s && y != s {
                        assert(apart(f0, &dat.pool, x, y));
                    } else if x == s {
                        assert(laid_at(o0, f0, &dat.pool, y));
                    } else {
                        assert(laid_at(o0, f0, &dat.pool, x));
                    }
                }
            }
        }
        i = i + 1;
    }
    proof {
        assert(cache@.subrange(0, cache@.len() as int) =~= cache@);
    }
    if out.len() > usize::MAX - 16 {
        return Err(HsdError::malformed(out.len() as u64, "writer: image too large"));
    }
    let ghost o3 = out@;
    let ghost f3 = offset_of@;
    align_to(&mut out, 4);
    proof {
        assert(cache@.subrange(0, cache@.len() as int) =~= cache@);
        if out@.len() < 0x1_0000_0000 {
            assert(layout_ok(o3, f3, &dat.pool));
            assert forall|x: int| 0 <= x < offset_of@.len() implies #[trigger] laid_at(
                out@,
                offset_of@,
                &dat.pool,
                x,
            ) by {
                assert(laid_at(o3, f3, &dat.pool, x));
                if let Some(o) = f3[x] {
                    let b = dat.pool.at(x).bytes();
                    assert forall|t: int| 0x20 + o <= t < 0x20 + o + b.len() implies out@[t] == o3[t] by {
                        assert(out@.subrange(0, o3.len() as int)[t] == o3[t]);
                    }
                    assert(out@.subrange(0x20 + o, 0x20 + o + b.len()) =~= o3.subrange(0x20 + o, 0x20 + o + b.len()));
                }
            }
        }
    }
    Ok((out, offset_of))
}

/// Position `p` lies in pointer slot `q` of struct `s`, at the offset `s`
/// was laid at.
pub open spec fn in_slot_of(pool: &StructPool, offs: Seq<Option<u32>>, s: int, q: u32, p: int) -> bool {
    &&& 0 <= s < pool.len()
    &&& pool.at(s).refs().contains_key(q)
    &&& offs[s] matches Some(o) && 0x20 + o + q <= p < 0x20 + o + q + 4
}

/// Position `p` lies in some laid-out pointer slot.
pub open spec fn in_some_slot(pool: &StructPool, offs: Seq<Option<u32>>, p: int) -> bool {
    exists|s: int, q: u32| #[trigger] in_slot_of(pool, offs, s, q, p)
}

/// The slot at `q` of laid struct `s` holds the offset its (redirected)
/// target was laid at.
pub open spec fn pointer_ok(
    w: Seq<u8>,
    pool: &StructPool,
    offs: Seq<Option<u32>>,
    redir: Seq<Option<StructRef>>,
    s: int,
    q: u32,
) -> bool {
    offs[s] matches Some(o) && (offs[redirected(redir, pool.at(s).refs()[q]) as int] matches Some(ot) && be32(
        w,
        0x20 + o + q,
    ) == ot)
}

/// Struct `s` is among the first `i` of `cache` and has a reference at `q`.
pub open spec fn done_outer(cache: Seq<StructRef>, pool: &StructPool, i: int, s: int, q: u32) -> bool {
    exists|i2: int| 0 <= i2 < i && #[trigger] cache[i2] == s && pool.at(s).refs().contains_key(q)
}

/// Offset `q` is among the first `k` reference offsets of `st`.
pub open spec fn done_inner(st: HsdStruct, k: int, q: u32) -> bool {
    exists|m: int| 0 <= m < k && #[trigger] st.ref_pairs()[m].0 == q
}

/// `p` is listed in `rp`.
pub open spec fn listed(rp: Seq<u32>, p: u32) -> bool {
    exists|idx: int| 0 <= idx < rp.len() && #[trigger] rp[idx] == p
}

/// The relative position of slot `q` of laid struct `s` is relocated unless
/// it heads a reference chain link.
pub open spec fn listed_ok(
    rp: Seq<u32>,
    offs: Seq<Option<u32>>,
    skip: Seq<bool>,
    s: int,
    q: u32,
) -> bool {
    !(skip[s] && q == 0) ==> (offs[s] matches Some(o) && listed(rp, w32(o + q)))
}

/// `p` is the relative position of a relocated slot of a laid struct.
pub open spec fn slot_listed(
    cache: Seq<StructRef>,
    pool: &StructPool,
    offs: Seq<Option<u32>>,
    skip: Seq<bool>,
    i: int,
    p: u32,
) -> bool {
    exists|s: int, q: u32|
        #[trigger] done_outer(cache, pool, i, s, q) && !(skip[s] && q == 0) && (offs[s] matches Some(o) && p == w32(
            o + q,
        ))
}

/// Distinct laid structs do not overlap, and every struct's pointer slots
/// lie inside it and do not overlap each other.
pub open spec fn slots_separate(pool: &StructPool, offs: Seq<Option<u32>>) -> bool {
    &&& forall|x: int, y: int| 0 <= x < offs.len() && 0 <= y < offs.len() && x != y ==> #[trigger] apart(offs, pool, x, y)
    &&& crate::dat::slots_fit(pool)
    &&& slots_apart(pool)
}

/// The pointer slots of every struct do not overlap.
pub open spec fn slots_apart(pool: &StructPool) -> bool {
    forall|x: int, k1: u32, k2: u32|
        0 <= x < pool.len() && #[trigger] pool.at(x).refs().contains_key(k1) && #[trigger] pool.at(x).refs().contains_key(
            k2,
        ) && k1 != k2 ==> k1 + 4 <= k2 || k2 + 4 <= k1
}

/// A 4-byte write elsewhere keeps a slot's pointer.
proof fn lemma_pointer_kept(
    w0: Seq<u8>,
    pos: int,
    v: u32,
    pool: &StructPool,
    offs: Seq<Option<u32>>,
    redir: Seq<Option<StructRef>>,
    s: int,
    q: u32,
)
    requires
        pointer_ok(w0, pool, offs, redir, s, q),
        0 <= pos,
        pos + 4 <= w0.len(),
        0x20 + offs[s]->0 + q + 4 <= w0.len(),
        pos + 4 <= 0x20 + offs[s]->0 + q || 0x20 + offs[s]->0 + q + 4 <= pos,
    ensures
        pointer_ok(splice(w0, pos, be32_bytes(v)), pool, offs, redir, s, q),
{
    lemma_be32_frame(w0, pos, v, 0x20 + offs[s]->0 + q);
}

/// Pointer slot `q` of laid struct `s` can be written: its target, after
/// the merge `redir`, was laid too, and the slot ends within `len` bytes.
pub open spec fn slot_patchable(
    pool: &StructPool,
    redir: Seq<Option<StructRef>>,
    offs: Seq<Option<u32>>,
    len: int,
    s: int,
    q: u32,
) -> bool {
    &&& offs[s] matches Some(o) && 0x20 + o + q + 4 <= len
    &&& offs[redirected(redir, pool.at(s).refs()[q]) as int] is Some
}

/// Number of pointer slots of the first `i` structs of `cache`.
pub open spec fn slot_total(pool: &StructPool, cache: Seq<StructRef>, i: int) -> int
    decreases i,
{
    if i <= 0 {
        0
    } else {
        slot_total(pool, cache, i - 1) + pool.at(cache[i - 1] as int).ref_pairs().len()
    }
}

/// Struct `cache[j]` was laid and each of its pointer slots can be written.
pub open spec fn patchable(
    pool: &StructPool,
    cache: Seq<StructRef>,
    redir: Seq<Option<StructRef>>,
    offs: Seq<Option<u32>>,
    len: int,
    j: int,
) -> bool {
    &&& offs[cache[j] as int] is Some
    &&& forall|q: u32|
        #[trigger] pool.at(cache[j] as int).refs().contains_key(q) ==> slot_patchable(
            pool,
            redir,
            offs,
            len,
            cache[j] as int,
            q,
        )
}

/// Write every reference of the structs of `cache` into its slot as the
/// target's new offset; returns the pointer positions to relocate.  Only
/// pointer slots change.
#[verifier::rlimit(80)]
#[verifier::spinoff_prover]
fn patch_pointers(
    dat: &Dat,
    cache: &Vec<StructRef>,
    redirect: &Vec<Option<StructRef>>,
    skip: &Vec<bool>,
    offset_of: &Vec<Option<u32>>,
    out: &mut Vec<u8>,
) -> (r: Result<Vec<u32>>)
    requires
        dat.wf(),
        forall|j: int| 0 <= j < cache@.len() ==> #[trigger] cache@[j] < dat.pool.len(),
        redirect@.len() == dat.pool.len(),
        forall|x: int| 0 <= x < redirect@.len() ==> (#[trigger] redirect@[x] matches Some(t) ==> t
            < dat.pool.len()),
        skip@.len() == dat.pool.len(),
        offset_of@.len() == dat.pool.len(),
        old(out)@.len() >= 0x20,
    ensures
        final(out)@.len() == old(out)@.len(),
        forall|p: int|
            0 <= p < final(out)@.len() && final(out)@[p] != old(out)@[p] ==> in_some_slot(&dat.pool, offset_of@, p),
        r matches Ok(rp) ==> forall|s: int, q: u32|
            #[trigger] done_outer(cache@, &dat.pool, cache@.len() as int, s, q) ==> listed_ok(rp@, offset_of@, skip@, s, q),
        r matches Ok(rp) ==> forall|idx: int|
            0 <= idx < rp@.len() ==> slot_listed(cache@, &dat.pool, offset_of@, skip@, cache@.len() as int, #[trigger] rp@[idx]),
        r matches Ok(rp) ==> rp@.len() <= slot_total(&dat.pool, cache@, cache@.len() as int),
        r is Ok <==> forall|j: int|
            0 <= j < cache@.len() ==> #[trigger] patchable(&dat.pool, cache@, redirect@, offset_of@, old(out)@.len() as int, j),
        r is Ok && slots_separate(&dat.pool, offset_of@) ==> forall|s: int, q: u32|
            #[trigger] done_outer(cache@, &dat.pool, cache@.len() as int, s, q) ==> pointer_ok(
                final(out)@,
                &dat.pool,
                offset_of@,
                redirect@,
                s,
                q,
            ),
{
    let n = dat.pool.len_exec();
    let reloc_offset_abs = out.len();
    let mut reloc_positions: Vec<u32> = Vec::new();
    let ghost sep = slots_separate(&dat.pool, offset_of@);
    let mut i: usize = 0;
    while i < cache.len()
        invariant
            dat.wf(),
            n == dat.pool.len(),
            offset_of@.len() == n,
            skip@.len() == n,
            redirect@.len() == n,
            forall|x: int| 0 <= x < redirect@.len() ==> (#[trigger] redirect@[x] matches Some(t) ==> t
                < n),
            reloc_offset_abs == out@.len(),
            reloc_offset_abs == old(out)@.len(),
            out@.len() >= 0x20,
            i <= cache@.len(),
            forall|j: int| 0 <= j < cache@.len() ==> #[trigger] cache@[j] < n,
            forall|p: int| 0 <= p < out@.len() && out@[p] != old(out)@[p] ==> in_some_slot(&dat.pool, offset_of@, p),
            sep == slots_separate(&dat.pool, offset_of@),
            forall|s: int, q: u32|
                #[trigger] done_outer(cache@, &dat.pool, i as int, s, q) ==> listed_ok(reloc_positions@, offset_of@, skip@, s, q),
            forall|idx: int|
                0 <= idx < reloc_positions@.len() ==> slot_listed(cache@, &dat.pool, offset_of@, skip@, i as int, #[trigger] reloc_positions@[idx]),
            sep ==> forall|s: int, q: u32|
                #[trigger] done_outer(cache@, &dat.pool, i as int, s, q) ==> pointer_ok(out@, &dat.pool, offset_of@, redirect@, s, q),
            sep ==> forall|s: int, q: u32| #[trigger] done_outer(cache@, &dat.pool, i as int, s, q) ==> 0x20 + offset_of@[s]->0 + q + 4 <= out@.len(),
            forall|j: int| 0 <= j < i ==> #[trigger] patchable(&dat.pool, cache@, redirect@, offset_of@, reloc_offset_abs as int, j),
            reloc_positions@.len() <= slot_total(&dat.pool, cache@, i as int),
        decreases cache@.len() - i,
    {
        let s = cache[i];
        let parent_off = match offset_of[s] {
            Some(v) => v,
            None => {
                assert(!patchable(&dat.pool, cache@, redirect@, offset_of@, reloc_offset_abs as int, i as int));
                return Err(HsdError::malformed(0, "writer: struct missing from layout"));
            },
        };
        let parent_abs: u64 = parent_off as u64 + 0x20;
        assert(s < n);
        assert(dat.pool.at(s as int).wf());
        let st = dat.pool.get(s);
        assert(st.wf() && st.refs_below(dat.pool.len()));
        let refs = st.references();
        proof {
            st.lemma_ref_pairs();
        }
        let ghost i0 = i as int;
        proof {
            assert forall|idx: int| 0 <= idx < reloc_positions@.len() implies slot_listed(
                cache@,
                &dat.pool,
                offset_of@,
                skip@,
                i0 + 1,
                #[trigger] reloc_positions@[idx],
            ) by {
                assert(slot_listed(cache@, &dat.pool, offset_of@, skip@, i0, reloc_positions@[idx]));
                let (s2, q2) = choose|s2: int, q2: u32|
                    #[trigger] done_outer(cache@, &dat.pool, i0, s2, q2) && !(skip@[s2] && q2 == 0) && (offset_of@[s2] matches Some(o) && reloc_positions@[idx] == w32(o + q2));
                let i2 = choose|i2: int| 0 <= i2 < i0 && #[trigger] cache@[i2] == s2 && dat.pool.at(s2).refs().contains_key(q2);
                assert(done_outer(cache@, &dat.pool, i0 + 1, s2, q2));
            }
        }
        let mut k: usize = 0;
        while k < refs.len()
            invariant
                dat.wf(),
                n == dat.pool.len(),
                offset_of@.len() == n,
                skip@.len() == n,
                redirect@.len() == n,
                forall|x: int| 0 <= x < redirect@.len() ==> (#[trigger] redirect@[x] matches Some(t)
                    ==> t < n),
                reloc_offset_abs == out@.len(),
                reloc_offset_abs == old(out)@.len(),
                out@.len() >= 0x20,
                parent_abs <= 0x1_0000_0020,
                refs.wf(),
                refs.view() == st.refs(),
                refs.pairs() == st.ref_pairs(),
                st.refs_below(n as nat),
                forall|m: int| 0 <= m < refs.pairs().len() ==> #[trigger] st.refs()[refs.pairs()[m].0]
                    == refs.pairs()[m].1,
                forall|m: int| 0 <= m < refs.pairs().len() ==> st.refs().contains_key(#[trigger] refs.pairs()[m].0),
                s < n,
                *st == dat.pool.at(s as int),
                offset_of@[s as int] == Some(parent_off),
                parent_abs == parent_off + 0x20,
                k <= refs.pairs().len(),
                i0 == i,
                i < cache@.len(),
                cache@[i0] == s,
                forall|j: int| 0 <= j < cache@.len() ==> #[trigger] cache@[j] < n,
                forall|p: int| 0 <= p < out@.len() && out@[p] != old(out)@[p] ==> in_some_slot(&dat.pool, offset_of@, p),
                sep == slots_separate(&dat.pool, offset_of@),
                forall|ss: int, q: u32|
                    #[trigger] done_outer(cache@, &dat.pool, i0, ss, q) || (ss == s && done_inner(*st, k as int, q))
                        ==> listed_ok(reloc_positions@, offset_of@, skip@, ss, q),
                forall|idx: int|
                    0 <= idx < reloc_positions@.len() ==> slot_listed(cache@, &dat.pool, offset_of@, skip@, i0 + 1, #[trigger] reloc_positions@[idx]),
                sep ==> forall|ss: int, q: u32|
                    #[trigger] done_outer(cache@, &dat.pool, i0, ss, q) || (ss == s && done_inner(*st, k as int, q))
                        ==> pointer_ok(out@, &dat.pool, offset_of@, redirect@, ss, q) && 0x20 + offset_of@[ss]->0 + q + 4 <= out@.len(),
            forall|j: int| 0 <= j < i ==> #[trigger] patchable(&dat.pool, cache@, redirect@, offset_of@, reloc_offset_abs as int, j),
            forall|m: int| 0 <= m < k ==> slot_patchable(&dat.pool, redirect@, offset_of@, reloc_offset_abs as int, s as int, #[trigger] st.ref_pairs()[m].0),
            reloc_positions@.len() <= slot_total(&dat.pool, cache@, i0) + k,
            decreases refs.pairs().len() - k,
        {
            let (inner, target0) = refs.entry(k);
            let ghost rpH = reloc_positions@;
            let ghost kH = k as int;
            let ghost outH = out@;
            proof {
                if sep {
                    assert forall|ss: int, q: u32| (done_outer(cache@, &dat.pool, i0, ss, q) || (ss == s && done_inner(*st, kH, q)))
                        implies #[trigger] pointer_ok(outH, &dat.pool, offset_of@, redirect@, ss, q) && 0x20 + offset_of@[ss]->0 + q + 4 <= outH.len() by {
                        assert(done_outer(cache@, &dat.pool, i0, ss, q) || (ss == s && done_inner(*st, kH, q)));
                    }
                }
                assert(st.refs().contains_key(inner));
                assert(st.refs()[inner] == target0);
                assert(st.ref_pairs()[kH].0 == inner);
                assert forall|ss: int, q: u32| (done_outer(cache@, &dat.pool, i0, ss, q) || (ss == s && done_inner(*st, kH, q)))
                    implies #[trigger] listed_ok(rpH, offset_of@, skip@, ss, q) by {
                    assert(done_outer(cache@, &dat.pool, i0, ss, q) || (ss == s && done_inner(*st, kH, q)));
                }
            }
            let target = match redirect[target0] {
                Some(u) => u,
                None => target0,
            };
            assert(target == redirected(redirect@, target0));
            let target_off = match offset_of[target] {
                Some(v) => v,
                None => {
                    assert(!slot_patchable(&dat.pool, redirect@, offset_of@, reloc_offset_abs as int, s as int, inner));
                    assert(!patchable(&dat.pool, cache@, redirect@, offset_of@, reloc_offset_abs as int, i as int));
                    return Err(HsdError::malformed(
                        parent_abs,
                        "writer: reference target missing from cache",
                    ));
                },
            };
            let pointer_abs: u64 = parent_abs + inner as u64;
            if pointer_abs + 4 > reloc_offset_abs as u64 || pointer_abs < 0x20 {
                assert(!slot_patchable(&dat.pool, redirect@, offset_of@, reloc_offset_abs as int, s as int, inner));
                assert(!patchable(&dat.pool, cache@, redirect@, offset_of@, reloc_offset_abs as int, i as int));
                return Err(HsdError::malformed(pointer_abs, "writer: pointer slot past struct region"));
            }
            assert(slot_patchable(&dat.pool, redirect@, offset_of@, reloc_offset_abs as int, s as int, inner));
            let ghost o0 = out@;
            let ghost k0 = k as int;
            write_u32_at(out, pointer_abs as usize, target_off);
            proof {
                assert forall|p: int| 0 <= p < out@.len() && out@[p] != old(out)@[p] implies in_some_slot(
                    &dat.pool,
                    offset_of@,
                    p,
                ) by {
                    if pointer_abs <= p < pointer_abs + 4 {
                        assert(in_slot_of(&dat.pool, offset_of@, s as int, inner, p));
                    } else {
                        lemma_splice_keeps(o0, pointer_abs as int, be32_bytes(target_off), p);
                    }
                }
                crate::be::lemma_read_after_write32(o0, pointer_abs as int, target_off);
            }
            let ghost rp0 = reloc_positions@;
            k = k + 1;
            proof {
                if sep {
                    assert forall|ss: int, q: u32|
                        #[trigger] done_outer(cache@, &dat.pool, i0, ss, q) || (ss == s && done_inner(*st, k as int, q))
                        implies pointer_ok(out@, &dat.pool, offset_of@, redirect@, ss, q) && 0x20 + offset_of@[ss]->0 + q + 4 <= out@.len() by {
                        if ss == s && q == inner {
                            assert(pointer_ok(out@, &dat.pool, offset_of@, redirect@, ss, q));
                        } else {
                            if !(done_outer(cache@, &dat.pool, i0, ss, q) || (ss == s && done_inner(*st, k0, q))) {
                                let m = choose|m: int| 0 <= m < k0 + 1 && #[trigger] st.ref_pairs()[m].0 == q;
                                assert(m != k0);
                            }
                            assert(pointer_ok(outH, &dat.pool, offset_of@, redirect@, ss, q));
                            assert(o0 == outH);
                            let qs = 0x20 + offset_of@[ss]->0 + q;
                            if ss == s {
                                assert(dat.pool.at(s as int).refs().contains_key(q)) by {
                                    if done_outer(cache@, &dat.pool, i0, ss, q) {
                                        let i2 = choose|i2: int| 0 <= i2 < i0 && #[trigger] cache@[i2] == ss && dat.pool.at(ss).refs().contains_key(q);
                                    } else {
                                        let m = choose|m: int| 0 <= m < k0 && #[trigger] st.ref_pairs()[m].0 == q;
                                    }
                                }
                                assert(dat.pool.at(s as int).refs().contains_key(inner));
                                assert(q + 4 <= inner || inner + 4 <= q);
                            } else {
                                assert(dat.pool.at(ss).refs().contains_key(q)) by {
                                    let i2 = choose|i2: int| 0 <= i2 < i0 && #[trigger] cache@[i2] == ss && dat.pool.at(ss).refs().contains_key(q);
                                }
                                assert(apart(offset_of@, &dat.pool, s as int, ss));
                                assert(q + 4 <= dat.pool.at(ss).bytes().len());
                                assert(inner + 4 <= dat.pool.at(s as int).bytes().len());
                            }
                            lemma_pointer_kept(o0, pointer_abs as int, target_off, &dat.pool, offset_of@, redirect@, ss, q);
                        }
                    }
                }
            }
            if skip[s] && inner == 0 {
                proof {
                    assert forall|ss: int, q: u32|
                        #[trigger] done_outer(cache@, &dat.pool, i0, ss, q) || (ss == s && done_inner(*st, k as int, q))
                        implies listed_ok(reloc_positions@, offset_of@, skip@, ss, q) by {
                        if !(done_outer(cache@, &dat.pool, i0, ss, q) || (ss == s && done_inner(*st, k0, q))) {
                            let m = choose|m: int| 0 <= m < k0 + 1 && #[trigger] st.ref_pairs()[m].0 == q;
                            assert(m == k0);
                        }
                    }
                }
                continue;
            }
            let rel = parent_off.wrapping_add(inner);
            assert(rel == w32(parent_off + inner));
            reloc_positions.push(rel);
            proof {
                assert forall|ss: int, q: u32|
                    #[trigger] done_outer(cache@, &dat.pool, i0, ss, q) || (ss == s && done_inner(*st, k as int, q))
                    implies listed_ok(reloc_positions@, offset_of@, skip@, ss, q) by {
                    if ss == s && q == inner {
                        assert(reloc_positions@[rp0.len() as int] == rel);
                    } else {
                        if !(done_outer(cache@, &dat.pool, i0, ss, q) || (ss == s && done_inner(*st, k0, q))) {
                            let m = choose|m: int| 0 <= m < k0 + 1 && #[trigger] st.ref_pairs()[m].0 == q;
                            assert(m != k0);
                        }
                        assert(listed_ok(rp0, offset_of@, skip@, ss, q));
                        if !(skip@[ss] && q == 0) {
                            let idx = choose|idx: int| 0 <= idx < rp0.len() && #[trigger] rp0[idx] == w32(offset_of@[ss]->0 + q);
                            assert(reloc_positions@[idx] == rp0[idx]);
                        }
                    }
                }
                assert forall|idx: int| 0 <= idx < reloc_positions@.len() implies slot_listed(
                    cache@,
                    &dat.pool,
                    offset_of@,
                    skip@,
                    i0 + 1,
                    #[trigger] reloc_positions@[idx],
                ) by {
                    if idx < rp0.len() {
                        assert(reloc_positions@[idx] == rp0[idx]);
                    } else {
                        assert(done_outer(cache@, &dat.pool, i0 + 1, s as int, inner));
                    }
                }
            }
        }
        proof {
            assert forall|ss: int, q: u32| #[trigger] done_outer(cache@, &dat.pool, i0 + 1, ss, q) implies (done_outer(
                cache@,
                &dat.pool,
                i0,
                ss,
                q,
            ) || (ss == s && done_inner(*st, k as int, q))) by {
                let i2 = choose|i2: int| 0 <= i2 < i0 + 1 && #[trigger] cache@[i2] == ss && dat.pool.at(ss).refs().contains_key(q);
                if i2 < i0 {
                    assert(done_outer(cache@, &dat.pool, i0, ss, q));
                } else {
                    assert(crate::offset_map::has_key_at(st.ref_pairs(), q));
                    let m = choose|m: int| 0 <= m < st.ref_pairs().len() && st.ref_pairs()[m].0 == q;
                    assert(done_inner(*st, k as int, q));
                }
            }
            assert forall|ss: int, q: u32| #[trigger] done_outer(cache@, &dat.pool, i0 + 1, ss, q) implies listed_ok(
                reloc_positions@,
                offset_of@,
                skip@,
                ss,
                q,
            ) by {
                assert(done_outer(cache@, &dat.pool, i0, ss, q) || (ss == s && done_inner(*st, k as int, q)));
            }
            if sep {
                assert forall|ss: int, q: u32| #[trigger] done_outer(cache@, &dat.pool, i0 + 1, ss, q) implies pointer_ok(
                    out@,
                    &dat.pool,
                    offset_of@,
                    redirect@,
                    ss,
                    q,
                ) && 0x20 + offset_of@[ss]->0 + q + 4 <= out@.len() by {
                    assert(done_outer(cache@, &dat.pool, i0, ss, q) || (ss == s && done_inner(*st, k as int, q)));
                }
            }
            assert forall|q: u32| #[trigger] dat.pool.at(cache@[i0] as int).refs().contains_key(q) implies slot_patchable(
                &dat.pool,
                redirect@,
                offset_of@,
                reloc_offset_abs as int,
                cache@[i0] as int,
                q,
            ) by {
                assert(crate::offset_map::has_key_at(st.ref_pairs(), q));
                let m = choose|m: int| 0 <= m < st.ref_pairs().len() && st.ref_pairs()[m].0 == q;
                assert(slot_patchable(&dat.pool, redirect@, offset_of@, reloc_offset_abs as int, s as int, st.ref_pairs()[m].0));
            }
            assert(patchable(&dat.pool, cache@, redirect@, offset_of@, reloc_offset_abs as int, i0));
            assert(slot_total(&dat.pool, cache@, i0 + 1) == slot_total(&dat.pool, cache@, i0) + st.ref_pairs().len());
        }
        i = i + 1;
    }
    proof {
        assert forall|idx: int| 0 <= idx < reloc_positions@.len() implies slot_listed(
            cache@,
            &dat.pool,
            offset_of@,
            skip@,
            cache@.len() as int,
            #[trigger] reloc_positions@[idx],
        ) by {}
    }
    Ok(reloc_positions)
}

proof fn lemma_trunc32(x: usize)
    ensures
        (x as u32) == crate::dat::w32(x as int),
{
    let y = x as u64;
    assert((y as u32) as int == y % 0x1_0000_0000) by (bit_vector);
    assert(x as u32 == y as u32);
}

/// A 4-byte write leaves a disjoint 4-byte field as it was.
pub(crate) proof fn lemma_be32_frame(s: Seq<u8>, p: int, v: u32, i: int)
    requires
        0 <= p,
        p + 4 <= s.len(),
        0 <= i,
        i + 4 <= s.len(),
        p + 4 <= i || i + 4 <= p,
    ensures
        be32(splice(s, p, be32_bytes(v)), i) == be32(s, i),
        splice(s, p, be32_bytes(v)).len() == s.len(),
{
    let t = splice(s, p, be32_bytes(v));
    assert(t[i] == s[i]);
    assert(t[i + 1] == s[i + 1]);
    assert(t[i + 2] == s[i + 2]);
    assert(t[i + 3] == s[i + 3]);
}

/// Fill in the header: size, relocation table offset and count, symbol
/// counts and version.  Bytes past the header are left as they are.
#[verifier::rlimit(30)]
fn fill_header(dat: &Dat, out: &mut Vec<u8>, reloc_offset_rel: u32, nrelocs: usize)
    requires
        old(out)@.len() >= 0x20,
    ensures
        header_ok(dat, final(out)@),
        final(out)@.len() == old(out)@.len(),
        be32(final(out)@, 4) == reloc_offset_rel,
        be32(final(out)@, 8) == crate::dat::w32(nrelocs as int),
        forall|j: int| 0x18 <= j < old(out)@.len() ==> #[trigger] final(out)@[j] == old(out)@[j],
{
    let total_len: u32 = #[verifier::truncate] (out.len() as u32);
    let nrel: u32 = #[verifier::truncate] (nrelocs as u32);
    let nr: u32 = #[verifier::truncate] (dat.roots.len() as u32);
    let nf: u32 = #[verifier::truncate] (dat.references.len() as u32);
    proof {
        lemma_trunc32(out.len());
        lemma_trunc32(nrelocs);
        lemma_trunc32(dat.roots.len());
        lemma_trunc32(dat.references.len());
    }
    let ghost o0 = out@;
    write_u32_at(out, 0, total_len);
    let ghost o1 = out@;
    write_u32_at(out, 4, reloc_offset_rel);
    let ghost o2 = out@;
    write_u32_at(out, 8, nrel);
    let ghost o3 = out@;
    write_u32_at(out, 12, nr);
    let ghost o4 = out@;
    write_u32_at(out, 16, nf);
    let ghost o5 = out@;
    proof {
        crate::be::lemma_read_after_write32(o0, 0, total_len);
        lemma_be32_frame(o1, 4, reloc_offset_rel, 0);
        lemma_be32_frame(o2, 8, nrel, 0);
        lemma_be32_frame(o3, 12, nr, 0);
        lemma_be32_frame(o4, 16, nf, 0);
        crate::be::lemma_read_after_write32(o1, 4, reloc_offset_rel);
        lemma_be32_frame(o2, 8, nrel, 4);
        lemma_be32_frame(o3, 12, nr, 4);
        lemma_be32_frame(o4, 16, nf, 4);
        crate::be::lemma_read_after_write32(o2, 8, nrel);
        lemma_be32_frame(o3, 12, nr, 8);
        lemma_be32_frame(o4, 16, nf, 8);
        crate::be::lemma_read_after_write32(o3, 12, nr);
        lemma_be32_frame(o4, 16, nf, 12);
        crate::be::lemma_read_after_write32(o4, 16, nf);
        assert(be32(o5, 0) == total_len);
        assert(be32(o5, 4) == reloc_offset_rel);
        assert(be32(o5, 8) == nrel);
        assert(be32(o5, 12) == nr);
        assert(be32(o5, 16) == nf);
        assert forall|j: int| 0x14 <= j < o0.len() implies #[trigger] o5[j] == o0[j] by {
            lemma_splice_keeps(o0, 0, be32_bytes(total_len), j);
            lemma_splice_keeps(o1, 4, be32_bytes(reloc_offset_rel), j);
            lemma_splice_keeps(o2, 8, be32_bytes(nrel), j);
            lemma_splice_keeps(o3, 12, be32_bytes(nr), j);
            lemma_splice_keeps(o4, 16, be32_bytes(nf), j);
        }
    }
    out.set(0x14, dat.version[0]);
    out.set(0x15, dat.version[1]);
    out.set(0x16, dat.version[2]);
    out.set(0x17, dat.version[3]);
    proof {
        assert(out@.subrange(0x14, 0x18) =~= dat.version@);
        assert(forall|j: int| 0 <= j < 0x14 ==> out@[j] == o5[j]);
        assert(be32(out@, 0) == be32(o5, 0));
        assert(be32(out@, 4) == be32(o5, 4));
        assert(be32(out@, 8) == be32(o5, 8));
        assert(be32(out@, 12) == be32(o5, 12));
        assert(be32(out@, 16) == be32(o5, 16));
    }
}

/// A write over `[p, p + t.len())` keeps every other byte.
proof fn lemma_splice_keeps(s: Seq<u8>, p: int, t: Seq<u8>, j: int)
    requires
        0 <= p,
        p + t.len() <= s.len(),
        0 <= j < s.len(),
        j < p || p + t.len() <= j,
    ensures
        splice(s, p, t)[j] == s[j],
        splice(s, p, t).len() == s.len(),
{
    if j >= p + t.len() {
        assert(splice(s, p, t)[j] == s.subrange(p + t.len(), s.len() as int)[j - p - t.len()]);
    }
}

/// Pushing the four big-endian bytes of `pos` appends a field reading `pos`.
proof fn lemma_pushed_be32(ob: Seq<u8>, o: Seq<u8>, pos: u32)
    requires
        o == ob.push((pos >> 24) as u8).push(((pos >> 16) & 0xff) as u8).push(((pos >> 8) & 0xff) as u8).push(
            (pos & 0xff) as u8,
        ),
    ensures
        be32(o, ob.len() as int) == pos,
        o.len() == ob.len() + 4,
        forall|p: int| 0 <= p < ob.len() ==> #[trigger] o[p] == ob[p],
{
    let b0 = (pos >> 24) as u8;
    let b1 = ((pos >> 16) & 0xff) as u8;
    let b2 = ((pos >> 8) & 0xff) as u8;
    let b3 = (pos & 0xff) as u8;
    assert(b0 as u32 * 0x100_0000 + b1 as u32 * 0x1_0000 + b2 as u32 * 0x100 + b3 as u32 == pos) by (bit_vector)
        requires
            b0 == (pos >> 24) as u8,
            b1 == ((pos >> 16) & 0xff) as u8,
            b2 == ((pos >> 8) & 0xff) as u8,
            b3 == (pos & 0xff) as u8,
    ;
    let n = ob.len() as int;
    assert(o[n] == b0);
    assert(o[n + 1] == b1);
    assert(o[n + 2] == b2);
    assert(o[n + 3] == b3);
}

/// Bytes the string pool takes for the first `i` symbol names, each
/// UTF-8 encoded and NUL-terminated.
pub open spec fn names_size(dat: &Dat, i: int) -> int
    decreases i,
{
    if i <= 0 {
        0
    } else {
        names_size(dat, i - 1) + vstd::utf8::encode_utf8(symbol_name(dat, i - 1)).len() + 1
    }
}

proof fn lemma_names_size_mono(dat: &Dat, i: int, j: int)
    requires
        0 <= i <= j,
    ensures
        names_size(dat, i) <= names_size(dat, j),
    decreases j - i,
{
    if i < j {
        lemma_names_size_mono(dat, i, j - 1);
    }
}

/// The tables of `dat`, with `rp_len` relocations, fit in memory after
/// `out_len` bytes.
pub open spec fn tables_fit(dat: &Dat, out_len: int, rp_len: int) -> bool {
    let nsym = (dat.roots@.len() + dat.references@.len()) as int;
    &&& nsym <= 0xFFFF_FFFF_FFFF
    &&& rp_len <= 0xFFFF_FFFF_FFFF
    &&& out_len + 4 * rp_len + 8 * nsym + names_size(dat, nsym) + 2 <= usize::MAX
}

/// Every symbol's struct was laid out.
pub open spec fn symbol_structs_laid(dat: &Dat, offs: Seq<Option<u32>>) -> bool {
    forall|k: int|
        0 <= k < dat.roots@.len() + dat.references@.len() ==> offs[#[trigger] symbol_data(dat, k) as int] is Some
}

/// Append the relocation table, the symbol table and the string pool, and
/// fill in the header.  It fails when a symbol's struct was not laid out,
/// or the image would not fit in memory.
#[verifier::rlimit(40)]
fn write_tables(
    dat: &Dat,
    offset_of: &Vec<Option<u32>>,
    reloc_positions: &Vec<u32>,
    image: Vec<u8>,
) -> (r: Result<Vec<u8>>)
    requires
        dat.wf(),
        offset_of@.len() == dat.pool.len(),
        image@.len() >= 0x20,
    ensures
        r matches Ok(w) ==> header_ok(dat, w@),
        r matches Ok(w) ==> (w@.len() < 0x1_0000_0000 ==> names_written(dat, w@)),
        r matches Ok(w) ==> w@.len() >= image@.len() && forall|p: int| 0x18 <= p < image@.len() ==> #[trigger] w@[p]
            == image@[p],
        r matches Ok(w) ==> (w@.len() < 0x1_0000_0000 ==> forall|k: int|
            0 <= k < dat.roots@.len() + dat.references@.len() ==> #[trigger] data_entry(w@, dat, offset_of@, k)),
        r matches Ok(w) ==> (w@.len() < 0x1_0000_0000 ==> {
            &&& crate::dat::reloc_table_pos(w@) == image@.len()
            &&& crate::dat::hdr(w@, 2) == reloc_positions@.len()
            &&& image@.len() + 4 * reloc_positions@.len() <= w@.len()
            &&& forall|kk: int| 0 <= kk < reloc_positions@.len() ==> #[trigger] be32(w@, image@.len() + 4 * kk) == reloc_positions@[kk]
        }),
        r is Ok ==> symbol_structs_laid(dat, offset_of@),
        tables_fit(dat, image@.len() as int, reloc_positions@.len() as int) && symbol_structs_laid(dat, offset_of@)
            ==> r is Ok,
{
    let ghost out0 = image@;
    let ghost fits = tables_fit(dat, image@.len() as int, reloc_positions@.len() as int);
    proof {
        lemma_names_size_mono(dat, 0, (dat.roots@.len() + dat.references@.len()) as int);
    }
    let mut out = image;
    let n = dat.pool.len_exec();
    let reloc_offset_abs = out.len();
    let reloc_offset_rel: u32 = #[verifier::truncate] ((reloc_offset_abs - 0x20) as u32);
    proof {
        lemma_trunc32((reloc_offset_abs - 0x20) as usize);
    }
    if dat.roots.len() as u128 + dat.references.len() as u128 > 0xFFFF_FFFF_FFFF
        || reloc_positions.len() as u128 > 0xFFFF_FFFF_FFFF {
        return Err(HsdError::malformed(out.len() as u64, "writer: image too large"));
    }
    let total_symbols = dat.roots.len() as u64 + dat.references.len() as u64;
    if out.len() as u128 + 4 * reloc_positions.len() as u128 + 8 * total_symbols as u128
        > usize::MAX as u128 {
        return Err(HsdError::malformed(out.len() as u64, "writer: image too large"));
    }
    let mut k: usize = 0;
    while k < reloc_positions.len()
        invariant
            out@.len() >= 0x20,
            out@.len() == reloc_offset_abs + 4 * k,
            k <= reloc_positions@.len(),
            reloc_offset_abs as u64 + 4 * reloc_positions@.len() as u64 + 8 * total_symbols
                <= usize::MAX as u64,
            reloc_offset_abs == out0.len(),
            forall|p: int| 0 <= p < reloc_offset_abs ==> #[trigger] out@[p] == out0[p],
            forall|kk: int| 0 <= kk < k ==> #[trigger] be32(out@, reloc_offset_abs + 4 * kk) == reloc_positions@[kk],
        decreases reloc_positions@.len() - k,
    {
        let pos = reloc_positions[k];
        let ghost ob = out@;
        out.push(#[verifier::truncate] ((pos >> 24) as u8));
        out.push(#[verifier::truncate] (((pos >> 16) & 0xff) as u8));
        out.push(#[verifier::truncate] (((pos >> 8) & 0xff) as u8));
        out.push(#[verifier::truncate] ((pos & 0xff) as u8));
        proof {
            lemma_pushed_be32(ob, out@, pos);
            assert forall|kk: int| 0 <= kk < k + 1 implies #[trigger] be32(out@, reloc_offset_abs + 4 * kk) == reloc_positions@[kk] by {
                if kk < k {
                    let i0 = reloc_offset_abs + 4 * kk;
                    assert(be32(ob, i0) == reloc_positions@[kk]);
                    assert(out@[i0] == ob[i0]);
                    assert(out@[i0 + 1] == ob[i0 + 1]);
                    assert(out@[i0 + 2] == ob[i0 + 2]);
                    assert(out@[i0 + 3] == ob[i0 + 3]);
                }
            }
        }
        k = k + 1;
    }
    let ghost s_rel = out@;

    let symbol_section_abs = out.len();
    let sym_len = (8 * total_symbols) as usize;
    out.resize(symbol_section_abs + sym_len, 0);
    proof {
        assert forall|p: int| 0 <= p < reloc_offset_abs implies #[trigger] out@[p] == out0[p] by {
            assert(out@.subrange(0, symbol_section_abs as int)[p] == out@[p]);
        }
        assert forall|p: int| 0 <= p < symbol_section_abs implies #[trigger] out@[p] == s_rel[p] by {
            assert(out@.subrange(0, symbol_section_abs as int)[p] == out@[p]);
        }
    }

    let string_pool_abs = out.len();
    let mut string_offsets: Vec<u32> = Vec::new();
    let ghost mut pos: Seq<int> = Seq::empty();
    let mut i: usize = 0;
    let nroots = dat.roots.len();
    while i < nroots + dat.references.len()
        invariant
            out@.len() >= string_pool_abs,
            string_pool_abs == symbol_section_abs + sym_len,
            symbol_section_abs >= 0x20,
            sym_len == 8 * total_symbols,
            total_symbols == dat.roots@.len() + dat.references@.len(),
            nroots == dat.roots@.len(),
            string_offsets@.len() == i,
            pos.len() == i,
            i <= nroots + dat.references@.len(),
            reloc_offset_abs == out0.len(),
            reloc_offset_abs <= symbol_section_abs,
            forall|p: int| 0 <= p < reloc_offset_abs ==> #[trigger] out@[p] == out0[p],
            forall|p: int| 0 <= p < symbol_section_abs ==> #[trigger] out@[p] == s_rel[p],
            forall|j: int|
                0 <= j < i ==> #[trigger] placed(out@, dat, pos, string_offsets@, string_pool_abs as int, j),
            out@.len() <= string_pool_abs + names_size(dat, i as int),
            fits ==> string_pool_abs + names_size(dat, total_symbols as int) + 2 <= usize::MAX,
            fits == tables_fit(dat, out0.len() as int, reloc_positions@.len() as int),
            out0 == image@,
        decreases nroots + dat.references@.len() - i,
    {
        proof {
            lemma_names_size_mono(dat, i + 1, total_symbols as int);
        }
        let name = if i < nroots {
            dat.roots[i].name.as_str()
        } else {
            dat.references[i - nroots].name.as_str()
        };
        assert(name@ == symbol_name(dat, i as int));
        let ghost o0 = out@;
        let ghost offs0 = string_offsets@;
        let rel: u32 = #[verifier::truncate] ((out.len() - string_pool_abs) as u32);
        proof {
            lemma_trunc32((out.len() - string_pool_abs) as usize);
        }
        string_offsets.push(rel);
        let bytes = name.as_bytes();
        proof {
            assert(bytes@ == vstd::utf8::encode_utf8(name@));
            assert(names_size(dat, i + 1) == names_size(dat, i as int) + bytes@.len() + 1);
            assert(names_size(dat, i + 1) <= names_size(dat, total_symbols as int));
        }
        if bytes.len() >= usize::MAX - 1 || out.len() >= usize::MAX - 1 - bytes.len() {
            return Err(HsdError::malformed(out.len() as u64, "writer: image too large"));
        }
        append_bytes(&mut out, bytes);
        out.push(0);
        proof {
            let enc = vstd::utf8::encode_utf8(name@);
            assert(bytes@ == enc);
            assert(out@ =~= o0 + enc + seq![0u8]);
            assert forall|q: int| 0 <= q < reloc_offset_abs implies #[trigger] out@[q] == out0[q] by {
                assert(o0[q] == out0[q]);
            }
            assert forall|q: int| 0 <= q < symbol_section_abs implies #[trigger] out@[q] == s_rel[q] by {
                assert(o0[q] == s_rel[q]);
            }
            let p = o0.len() as int;
            assert(out@.subrange(p, p + enc.len()) =~= enc);
            assert(out@[p + enc.len()] == 0);
            assert(string_at(out@, p, symbol_name(dat, i as int)));
            let pos1 = pos.push(p);
            assert forall|j: int| 0 <= j < i + 1 implies #[trigger] placed(
                out@,
                dat,
                pos1,
                string_offsets@,
                string_pool_abs as int,
                j,
            ) by {
                if j < i {
                    assert(placed(o0, dat, pos, offs0, string_pool_abs as int, j));
                    assert(pos1[j] == pos[j]);
                    assert(string_offsets@[j] == offs0[j]);
                    let e = vstd::utf8::encode_utf8(symbol_name(dat, j));
                    assert(out@.subrange(pos[j], pos[j] + e.len()) =~= o0.subrange(pos[j], pos[j] + e.len()));
                    assert(out@[pos[j] + e.len()] == o0[pos[j] + e.len()]);
                } else {
                    assert(pos1[j] == p);
                }
            }
            pos = pos1;
        }
        i = i + 1;
    }

    let ghost s2 = out@;
    let mut i: usize = 0;
    while i < nroots + dat.references.len()
        invariant
            dat.wf(),
            n == dat.pool.len(),
            offset_of@.len() == n,
            out@.len() == s2.len(),
            s2.len() >= string_pool_abs,
            string_pool_abs == symbol_section_abs + sym_len,
            symbol_section_abs >= 0x20,
            sym_len == 8 * total_symbols,
            total_symbols == dat.roots@.len() + dat.references@.len(),
            nroots == dat.roots@.len(),
            string_offsets@.len() == total_symbols,
            i <= nroots + dat.references@.len(),
            forall|j: int| string_pool_abs <= j < s2.len() ==> #[trigger] out@[j] == s2[j],
            forall|k: int| 0 <= k < i ==> #[trigger] entry_ok(out@, symbol_section_abs as int, string_offsets@, k),
            reloc_offset_abs == out0.len(),
            reloc_offset_abs <= symbol_section_abs,
            forall|p: int| 0 <= p < reloc_offset_abs ==> #[trigger] out@[p] == out0[p],
            forall|p: int| 0 <= p < symbol_section_abs ==> #[trigger] out@[p] == s_rel[p],
            forall|k: int| 0 <= k < i ==> #[trigger] data_ok(out@, symbol_section_abs as int, offset_of@, dat, k),
            forall|k: int| 0 <= k < i ==> offset_of@[#[trigger] symbol_data(dat, k) as int] is Some,
        decreases nroots + dat.references@.len() - i,
    {
        let data = if i < nroots {
            dat.roots[i].data
        } else {
            dat.references[i - nroots].data
        };
        let data_off = match offset_of[data] {
            Some(v) => v,
            None => {
                assert(data == symbol_data(dat, i as int));
                assert(!symbol_structs_laid(dat, offset_of@));
                return Err(HsdError::malformed(0, "writer: root not found in struct cache"));
            },
        };
        assert(data == symbol_data(dat, i as int));
        let entry = symbol_section_abs + i * 8;
        let ghost a = out@;
        write_u32_at(&mut out, entry, data_off);
        let ghost b = out@;
        write_u32_at(&mut out, entry + 4, string_offsets[i]);
        proof {
            crate::be::lemma_read_after_write32(b, entry + 4, string_offsets@[i as int]);
            lemma_be32_frame(a, entry as int, data_off, 0);
            assert forall|k: int| 0 <= k < i + 1 implies #[trigger] entry_ok(
                out@,
                symbol_section_abs as int,
                string_offsets@,
                k,
            ) by {
                if k < i {
                    assert(entry_ok(a, symbol_section_abs as int, string_offsets@, k));
                    lemma_be32_frame(a, entry as int, data_off, symbol_section_abs + 8 * k + 4);
                    lemma_be32_frame(b, entry + 4, string_offsets@[i as int], symbol_section_abs + 8 * k + 4);
                }
            }
            assert forall|j: int| string_pool_abs <= j < s2.len() implies #[trigger] out@[j] == s2[j] by {
                assert(a[j] == s2[j]);
                lemma_splice_keeps(a, entry as int, be32_bytes(data_off), j);
                lemma_splice_keeps(b, entry + 4, be32_bytes(string_offsets@[i as int]), j);
            }
            assert forall|q: int| 0 <= q < reloc_offset_abs implies #[trigger] out@[q] == out0[q] by {
                assert(a[q] == out0[q]);
                lemma_splice_keeps(a, entry as int, be32_bytes(data_off), q);
                lemma_splice_keeps(b, entry + 4, be32_bytes(string_offsets@[i as int]), q);
            }
            assert forall|q: int| 0 <= q < symbol_section_abs implies #[trigger] out@[q] == s_rel[q] by {
                assert(a[q] == s_rel[q]);
                lemma_splice_keeps(a, entry as int, be32_bytes(data_off), q);
                lemma_splice_keeps(b, entry + 4, be32_bytes(string_offsets@[i as int]), q);
            }
            crate::be::lemma_read_after_write32(a, entry as int, data_off);
            lemma_be32_frame(b, entry + 4, string_offsets@[i as int], entry as int);
            assert forall|k: int| 0 <= k < i + 1 implies #[trigger] data_ok(
                out@,
                symbol_section_abs as int,
                offset_of@,
                dat,
                k,
            ) by {
                if k < i {
                    assert(data_ok(a, symbol_section_abs as int, offset_of@, dat, k));
                    lemma_be32_frame(a, entry as int, data_off, symbol_section_abs + 8 * k);
                    lemma_be32_frame(b, entry + 4, string_offsets@[i as int], symbol_section_abs + 8 * k);
                }
            }
        }
        i = i + 1;
    }

    let ghost s3 = out@;
    fill_header(dat, &mut out, reloc_offset_rel, reloc_positions.len());
    proof {
        assert forall|q: int| 0x18 <= q < out0.len() implies #[trigger] out@[q] == out0[q] by {
            assert(s3[q] == out0[q]);
        }
        if out@.len() < 0x1_0000_0000 {
            let w = out@;
            let ssa = symbol_section_abs as int;
            let spa = string_pool_abs as int;
            lemma_table_pos(dat, w, reloc_offset_abs as int, reloc_positions@.len() as int);
            lemma_w32_id(reloc_offset_abs - 0x20);
            lemma_w32_id(reloc_positions@.len() as int);
            assert(crate::dat::hdr(w, 1) == reloc_offset_abs - 0x20);
            assert forall|kk: int| 0 <= kk < reloc_positions@.len() implies #[trigger] be32(w, out0.len() + 4 * kk) == reloc_positions@[kk] by {
                let i0 = reloc_offset_abs + 4 * kk;
                assert(symbol_section_abs == reloc_offset_abs + 4 * reloc_positions@.len());
                assert(i0 + 3 < symbol_section_abs);
                assert(i0 + 3 < s3.len());
                assert(w[i0] == s3[i0]);
                assert(w[i0 + 1] == s3[i0 + 1]);
                assert(w[i0 + 2] == s3[i0 + 2]);
                assert(w[i0 + 3] == s3[i0 + 3]);
                assert(s3[i0] == s_rel[i0]);
                assert(s3[i0 + 1] == s_rel[i0 + 1]);
                assert(s3[i0 + 2] == s_rel[i0 + 2]);
                assert(s3[i0 + 3] == s_rel[i0 + 3]);
                assert(be32(s_rel, i0) == reloc_positions@[kk]);
            }
            assert forall|k: int| 0 <= k < pos.len() implies #[trigger] data_entry(w, dat, offset_of@, k) by {
                assert(data_ok(s3, ssa, offset_of@, dat, k));
                assert(w[ssa + 8 * k] == s3[ssa + 8 * k]);
                assert(w[ssa + 8 * k + 1] == s3[ssa + 8 * k + 1]);
                assert(w[ssa + 8 * k + 2] == s3[ssa + 8 * k + 2]);
                assert(w[ssa + 8 * k + 3] == s3[ssa + 8 * k + 3]);
                assert(crate::dat::symbol_entry(w, k) == ssa + 8 * k);
            }
            assert forall|k: int| 0 <= k < pos.len() implies #[trigger] entry_ok(w, ssa, string_offsets@, k) by {
                assert(entry_ok(s3, ssa, string_offsets@, k));
                assert(w[ssa + 8 * k + 4] == s3[ssa + 8 * k + 4]);
                assert(w[ssa + 8 * k + 5] == s3[ssa + 8 * k + 5]);
                assert(w[ssa + 8 * k + 6] == s3[ssa + 8 * k + 6]);
                assert(w[ssa + 8 * k + 7] == s3[ssa + 8 * k + 7]);
            }
            assert forall|k: int| 0 <= k < pos.len() implies #[trigger] placed(w, dat, pos, string_offsets@, spa, k) by {
                assert(placed(s2, dat, pos, string_offsets@, spa, k));
                let e = vstd::utf8::encode_utf8(symbol_name(dat, k));
                assert forall|j: int| pos[k] <= j <= pos[k] + e.len() implies w[j] == s2[j] by {
                    assert(s3[j] == s2[j]);
                }
                assert(w.subrange(pos[k], pos[k] + e.len()) =~= s2.subrange(pos[k], pos[k] + e.len()));
            }
            lemma_names_located(
                dat,
                w,
                reloc_offset_abs as int,
                reloc_positions@.len() as int,
                pos,
                string_offsets@,
            );
        }
    }
    Ok(out)
}

/// Byte `j` of `s` lies in one of its pointer slots.
pub open spec fn in_slot(s: HsdStruct, j: int) -> bool {
    exists|q: u32| #[trigger] s.refs().contains_key(q) && q <= j < q + 4
}

/// `s` sits at `p` in `w`, except for its pointer slots (which hold the
/// written offsets).
pub open spec fn struct_laid(w: Seq<u8>, p: int, s: HsdStruct) -> bool {
    &&& 0 <= p
    &&& p + s.bytes().len() <= w.len()
    &&& forall|j: int| 0 <= j < s.bytes().len() && !in_slot(s, j) ==> w[p + j] == #[trigger] s.bytes()[j]
}

/// Every root and reference struct of `dat` sits where its symbol entry
/// in `w` says.
pub open spec fn symbols_laid(dat: &Dat, w: Seq<u8>) -> bool {
    forall|k: int|
        0 <= k < dat.roots@.len() + dat.references@.len() ==> #[trigger] struct_laid(
            w,
            crate::dat::symbol_data_off(w, crate::dat::symbol_entry(w, k)) as int,
            dat.pool.at(symbol_data(dat, k) as int),
        )
}

/// The layout, the patched pointers and the tables together put each
/// symbol's struct where its entry points.
proof fn lemma_symbols_laid(
    dat: &Dat,
    o1: Seq<u8>,
    offs: Seq<Option<u32>>,
    o2: Seq<u8>,
    w: Seq<u8>,
)
    requires
        dat.wf(),
        crate::dat::slots_fit(&dat.pool),
        offs.len() == dat.pool.len(),
        layout_ok(o1, offs, &dat.pool),
        o2.len() == o1.len(),
        forall|p: int| 0 <= p < o2.len() && o2[p] != o1[p] ==> in_some_slot(&dat.pool, offs, p),
        w.len() >= o2.len(),
        forall|p: int| 0x18 <= p < o2.len() ==> #[trigger] w[p] == o2[p],
        w.len() < 0x1_0000_0000,
        forall|k: int| 0 <= k < dat.roots@.len() + dat.references@.len() ==> #[trigger] data_entry(w, dat, offs, k),
    ensures
        symbols_laid(dat, w),
{
    assert forall|k: int| 0 <= k < dat.roots@.len() + dat.references@.len() implies #[trigger] struct_laid(
        w,
        crate::dat::symbol_data_off(w, crate::dat::symbol_entry(w, k)) as int,
        dat.pool.at(symbol_data(dat, k) as int),
    ) by {
        let x = symbol_data(dat, k) as int;
        if k < dat.roots@.len() {
            assert(dat.roots@[k].data < dat.pool.len());
        } else {
            assert(dat.references@[k - dat.roots@.len()].data < dat.pool.len());
        }
        assert(data_entry(w, dat, offs, k));
        let o = offs[x]->0 as int;
        let sx = dat.pool.at(x);
        assert(laid_at(o1, offs, &dat.pool, x));
        lemma_w32_id(o + 0x20);
        assert(crate::dat::symbol_data_off(w, crate::dat::symbol_entry(w, k)) == o + 0x20);
        assert forall|j: int| 0 <= j < sx.bytes().len() && !in_slot(sx, j) implies w[o + 0x20 + j]
            == #[trigger] sx.bytes()[j] by {
            let p = o + 0x20 + j;
            assert(o1.subrange(0x20 + o, 0x20 + o + sx.bytes().len())[j] == o1[p]);
            if o2[p] != o1[p] {
                assert(in_some_slot(&dat.pool, offs, p));
                let (sp, q) = choose|sp: int, q: u32| #[trigger] in_slot_of(&dat.pool, offs, sp, q, p);
                if sp == x {
                    assert(sx.refs().contains_key(q) && q <= j < q + 4);
                    assert(in_slot(sx, j));
                } else {
                    assert(apart(offs, &dat.pool, x, sp));
                    assert(q + 4 <= dat.pool.at(sp).bytes().len());
                }
            }
        }
    }
}

/// `t` holds the bytes of `s` outside its pointer slots, as far as both
/// reach.
pub open spec fn agrees_outside_slots(t: HsdStruct, s: HsdStruct) -> bool {
    forall|j: int|
        0 <= j < t.bytes().len() && j < s.bytes().len() && !in_slot(s, j) ==> #[trigger] t.bytes()[j]
            == s.bytes()[j]
}

/// Parsing what `write` produced gives every root and reference a struct
/// that holds the bytes of the struct it was written from, outside the
/// pointer slots (which hold offsets in the new image), as far as both
/// reach.  Left out: images of 4 GiB or more (32-bit offsets), and structs
/// whose pointer slots run past their end (writing such a slot overwrites
/// the next struct's bytes).
pub proof fn law_write_then_parse_bytes(dat: &Dat, w: Seq<u8>, back: &Dat)
    requires
        header_ok(dat, w),
        w.len() < 0x1_0000_0000 && crate::dat::slots_fit(&dat.pool) ==> symbols_laid(dat, w),
        crate::dat::parsed_from(back, w),
        w.len() < 0x1_0000_0000,
        dat.roots@.len() < 0x1_0000_0000,
        dat.references@.len() < 0x1_0000_0000,
        crate::dat::slots_fit(&dat.pool),
    ensures
        forall|i: int|
            0 <= i < dat.roots@.len() ==> #[trigger] agrees_outside_slots(
                back.pool.at(back.roots@[i].data as int),
                dat.pool.at(dat.roots@[i].data as int),
            ),
        forall|i: int|
            0 <= i < dat.references@.len() ==> #[trigger] agrees_outside_slots(
                back.pool.at(back.references@[i].data as int),
                dat.pool.at(dat.references@[i].data as int),
            ),
{
    assert(crate::dat::hdr(w, 3) == be32(w, 12));
    lemma_w32_id(dat.roots@.len() as int);
    let nr = dat.roots@.len() as int;
    assert forall|i: int| 0 <= i < dat.roots@.len() implies #[trigger] agrees_outside_slots(
        back.pool.at(back.roots@[i].data as int),
        dat.pool.at(dat.roots@[i].data as int),
    ) by {
        assert(crate::dat::symbol_matches(w, &back.pool, i, back.roots@[i]));
        let e = crate::dat::symbol_entry(w, i);
        let off = crate::dat::symbol_data_off(w, e) as int;
        let t = back.pool.at(back.roots@[i].data as int);
        let sx = dat.pool.at(dat.roots@[i].data as int);
        assert(struct_laid(w, off, dat.pool.at(symbol_data(dat, i) as int)));
        assert forall|j: int| 0 <= j < t.bytes().len() && j < sx.bytes().len() && !in_slot(sx, j) implies #[trigger] t.bytes()[j]
            == sx.bytes()[j] by {
            assert(t.bytes()[j] == w.subrange(off, off + t.bytes().len())[j]);
        }
    }
    assert forall|i: int| 0 <= i < dat.references@.len() implies #[trigger] agrees_outside_slots(
        back.pool.at(back.references@[i].data as int),
        dat.pool.at(dat.references@[i].data as int),
    ) by {
        assert(crate::dat::symbol_matches(w, &back.pool, crate::dat::hdr(w, 3) + i, back.references@[i]));
        let e = crate::dat::symbol_entry(w, nr + i);
        let off = crate::dat::symbol_data_off(w, e) as int;
        let t = back.pool.at(back.references@[i].data as int);
        let sx = dat.pool.at(dat.references@[i].data as int);
        assert(struct_laid(w, off, dat.pool.at(symbol_data(dat, nr + i) as int)));
        assert forall|j: int| 0 <= j < t.bytes().len() && j < sx.bytes().len() && !in_slot(sx, j) implies #[trigger] t.bytes()[j]
            == sx.bytes()[j] by {
            assert(t.bytes()[j] == w.subrange(off, off + t.bytes().len())[j]);
        }
    }
}

/// Merging `x` into `redir[x]` keeps the bytes.
pub open spec fn merged_ok(dat: &Dat, redir: Seq<Option<StructRef>>, x: int) -> bool {
    redir[x] matches Some(t) ==> t < dat.pool.len() && dat.pool.at(t as int).bytes() == dat.pool.at(x).bytes()
}

/// Laid struct `x` sits at its offset, outside its pointer slots, below
/// the relocation table.
pub open spec fn laid_in(w: Seq<u8>, pool: &StructPool, offs: Seq<Option<u32>>, x: int) -> bool {
    offs[x] matches Some(o) ==> struct_laid(w, 0x20 + o, pool.at(x)) && 0x20 + o + pool.at(x).bytes().len()
        <= crate::dat::reloc_table_pos(w)
}

/// `v` is the relative position of pointer slot `q` of laid struct `x`.
pub open spec fn slot_rel(dat: &Dat, offs: Seq<Option<u32>>, x: int, q: u32, v: u32) -> bool {
    &&& 0 <= x < dat.pool.len()
    &&& dat.pool.at(x).refs().contains_key(q)
    &&& offs[x] matches Some(o) && v == w32(o + q)
}

/// The relocation table of `w` lists `v`.
pub open spec fn slot_in_table(w: Seq<u8>, v: u32) -> bool {
    exists|i: int| 0 <= i < crate::dat::hdr(w, 2) && #[trigger] be32(w, crate::dat::reloc_table_pos(w) + 4 * i) == v
}

/// Entry `i` of the relocation table of `w` is a pointer slot of a laid
/// struct.
pub open spec fn reloc_entry_is_slot(dat: &Dat, w: Seq<u8>, offs: Seq<Option<u32>>, i: int) -> bool {
    exists|x: int, q: u32| #[trigger] slot_rel(dat, offs, x, q, be32(w, crate::dat::reloc_table_pos(w) + 4 * i))
}

/// Root `i` names the offset its struct was laid at.
pub open spec fn root_laid(dat: &Dat, w: Seq<u8>, offs: Seq<Option<u32>>, i: int) -> bool {
    offs[dat.roots@[i].data as int] matches Some(o) && crate::dat::symbol_data_off(w, crate::dat::symbol_entry(w, i))
        == 0x20 + o
}

/// `w` holds `dat` with struct `x` at offset `offs[x]` when it has one,
/// each pointer written as the offset of its target after the merge
/// `redir`, exactly the pointer slots relocated, and each root naming its
/// struct.
pub open spec fn written_graph(dat: &Dat, w: Seq<u8>, offs: Seq<Option<u32>>, redir: Seq<Option<StructRef>>) -> bool {
    &&& offs.len() == dat.pool.len()
    &&& redir.len() == dat.pool.len()
    &&& forall|x: int| 0 <= x < redir.len() ==> #[trigger] merged_ok(dat, redir, x)
    &&& forall|x: int| 0 <= x < offs.len() ==> #[trigger] laid_in(w, &dat.pool, offs, x)
    &&& forall|x: int, y: int| 0 <= x < offs.len() && 0 <= y < offs.len() && x != y ==> #[trigger] apart(offs, &dat.pool, x, y)
    &&& forall|x: int, q: u32|
        0 <= x < offs.len() && offs[x] is Some && #[trigger] dat.pool.at(x).refs().contains_key(q) ==> pointer_ok(
            w,
            &dat.pool,
            offs,
            redir,
            x,
            q,
        ) && slot_in_table(w, w32(offs[x]->0 + q))
    &&& forall|i: int| 0 <= i < crate::dat::hdr(w, 2) ==> #[trigger] reloc_entry_is_slot(dat, w, offs, i)
    &&& forall|i: int| 0 <= i < dat.roots@.len() ==> #[trigger] root_laid(dat, w, offs, i)
    &&& crate::dat::reloc_table_pos(w) + 4 * crate::dat::hdr(w, 2) <= w.len()
}

/// `w` holds `dat` laid out at some offsets after the merge `redir`.
pub open spec fn written_with(dat: &Dat, w: Seq<u8>, redir: Seq<Option<StructRef>>) -> bool {
    exists|offs: Seq<Option<u32>>| #[trigger] written_graph(dat, w, offs, redir)
}

/// The least element of `cuts` past `k`, given one.
proof fn lemma_least_cut(cuts: Set<u32>, k: u32, e: u32)
    requires
        cuts.contains(e),
        k < e,
    ensures
        exists|m: u32| #[trigger] crate::dat::next_in(cuts, k, m),
    decreases e - k,
{
    if exists|s2: u32| #[trigger] cuts.contains(s2) && k < s2 && s2 < e {
        let s2 = choose|s2: u32| #[trigger] cuts.contains(s2) && k < s2 && s2 < e;
        lemma_least_cut(cuts, k, s2);
    } else {
        assert(crate::dat::next_in(cuts, k, e));
    }
}

/// A written image without reference symbols, whose roots name non-empty
/// structs, parses.  Left out, as for every written image: images of 4 GiB
/// or more, counts past 32 bits, names holding NUL.
pub proof fn law_written_image_parses(dat: &Dat, w: Seq<u8>)
    requires
        header_ok(dat, w),
        names_written(dat, w),
        graph_written(dat, w),
        dat.wf(),
        names_without_nul(dat),
        w.len() < 0x1_0000_0000,
        dat.roots@.len() < 0x1_0000_0000,
        dat.references@.len() == 0,
        forall|i: int| 0 <= i < dat.roots@.len() ==> #[trigger] dat.pool.at(dat.roots@[i].data as int).bytes().len() > 0,
    ensures
        crate::dat::parse_ok(w),
{
    assert(crate::dat::hdr(w, 3) == be32(w, 12));
    assert(crate::dat::hdr(w, 4) == be32(w, 16));
    lemma_w32_id(dat.roots@.len() as int);
    lemma_w32_id(0);
    let (offs, redir) = choose|offs: Seq<Option<u32>>, redir: Seq<Option<StructRef>>| #[trigger] written_graph(
        dat,
        w,
        offs,
        redir,
    );
    let ro = crate::dat::reloc_table_pos(w);
    assert forall|i: int| 0 <= i < crate::dat::hdr(w, 2) implies #[trigger] crate::dat::w32(ro + 4 * i) + 4 <= w.len() by {
        lemma_w32_id(ro + 4 * i);
    }
    assert forall|j: int| 0 <= j < crate::dat::hdr(w, 3) implies #[trigger] crate::dat::symbol_ok(w, j, false) by {
        assert(name_written(w, j, symbol_name(dat, j)));
        let e = crate::dat::symbol_entry(w, j);
        lemma_w32_id(e + 4);
        assert forall|c: int| 0 <= c < symbol_name(dat, j).len() implies #[trigger] symbol_name(dat, j)[c] as u32 != 0 by {}
        lemma_symbol_text(w, crate::dat::symbol_name_pos(w, e) as int, symbol_name(dat, j));
    }
    assert forall|i: int| 0 <= i < crate::dat::hdr(w, 3) implies #[trigger] crate::dat::symbol_carved(
        crate::dat::all_cuts(w),
        w.len() as int,
        crate::dat::file_root_offs(w)[i],
    ) by {
        lemma_root_carved(dat, w, offs, redir, i);
    }
}

proof fn lemma_root_carved(dat: &Dat, w: Seq<u8>, offs: Seq<Option<u32>>, redir: Seq<Option<StructRef>>, i: int)
    requires
        dat.wf(),
        written_graph(dat, w, offs, redir),
        w.len() < 0x1_0000_0000,
        0 <= i < crate::dat::hdr(w, 3),
        0 <= i < dat.roots@.len(),
        dat.pool.at(dat.roots@[i].data as int).bytes().len() > 0,
    ensures
        crate::dat::symbol_carved(crate::dat::all_cuts(w), w.len() as int, crate::dat::file_root_offs(w)[i]),
{
    let ro = crate::dat::reloc_table_pos(w);
    let cuts = crate::dat::all_cuts(w);
    assert(cuts.contains(ro as u32));
    let k = crate::dat::file_root_offs(w)[i];
    assert(k == crate::dat::symbol_data_off(w, crate::dat::symbol_entry(w, i)));
    assert(root_laid(dat, w, offs, i));
    let x = dat.roots@[i].data as int;
    assert(laid_in(w, &dat.pool, offs, x));
    assert(k < ro);
    lemma_least_cut(cuts, k, ro as u32);
}

/// A struct a symbol's struct points to is reached from the symbols.
proof fn lemma_reached_child(dat: &Dat, k: int, q: u32)
    requires
        dat.wf(),
        0 <= k < dat.symbol_refs().len(),
        dat.pool.at(dat.symbol_refs()[k] as int).refs().contains_key(q),
    ensures
        crate::dat::reached(&dat.pool, dat.symbol_refs().to_set(), dat.pool.at(dat.symbol_refs()[k] as int).refs()[q]),
{
    let r = dat.symbol_refs()[k];
    let t = dat.pool.at(r as int).refs()[q];
    let starts = dat.symbol_refs().to_set();
    assert(starts.contains(r));
    assert(r < dat.pool.len()) by {
        if k < dat.roots@.len() {
            assert(dat.symbol_refs()[k] == dat.roots@[k].data);
        } else {
            assert(dat.symbol_refs()[k] == dat.references@[k - dat.roots@.len()].data);
        }
    }
    assert(dat.pool.at(r as int).wf() && dat.pool.at(r as int).refs_below(dat.pool.len()));
    if t == r {
        let w = seq![r];
        assert(dfs_order_ok(&dat.pool, w, starts));
        assert(w[0] == t);
    } else {
        let w = seq![r, t];
        assert(dat.pool.points_to(r as int, t as int));
        assert(dfs_order_ok(&dat.pool, w, starts));
        assert(w[1] == t);
    }
}

/// Parsing a written image keeps the merge of equal buffers: two pointers
/// of a root's struct to dedupable buffers with the same bytes lead to one
/// struct.  Left out, as for every written image: images of 4 GiB or more,
/// counts past 32 bits, and images with reference symbols.
pub proof fn law_write_then_parse_merges_equal_buffers(dat: &Dat, w: Seq<u8>, back: &Dat, i: int, q1: u32, q2: u32)
    requires
        dat.wf(),
        header_ok(dat, w),
        dedup_written(dat, w),
        crate::dat::parsed_from(back, w),
        w.len() < 0x1_0000_0000,
        dat.roots@.len() < 0x1_0000_0000,
        dat.references@.len() == 0,
        0 <= i < dat.roots@.len(),
        dat.pool.at(dat.roots@[i].data as int).refs().contains_key(q1),
        dat.pool.at(dat.roots@[i].data as int).refs().contains_key(q2),
        dedupable(dat, dat.pool.at(dat.roots@[i].data as int).refs()[q1]),
        dedupable(dat, dat.pool.at(dat.roots@[i].data as int).refs()[q2]),
        dat.pool.at(dat.pool.at(dat.roots@[i].data as int).refs()[q1] as int).bytes() == dat.pool.at(
            dat.pool.at(dat.roots@[i].data as int).refs()[q2] as int,
        ).bytes(),
        back.pool.at(back.roots@[i].data as int).refs().contains_key(q1),
        back.pool.at(back.roots@[i].data as int).refs().contains_key(q2),
    ensures
        back.pool.at(back.roots@[i].data as int).refs()[q1] == back.pool.at(back.roots@[i].data as int).refs()[q2],
{
    assert(crate::dat::hdr(w, 3) == be32(w, 12));
    assert(crate::dat::hdr(w, 4) == be32(w, 16));
    lemma_w32_id(dat.roots@.len() as int);
    lemma_w32_id(0);
    let r = dat.roots@[i].data;
    let t1 = dat.pool.at(r as int).refs()[q1];
    let t2 = dat.pool.at(r as int).refs()[q2];
    assert(dat.symbol_refs()[i] == r);
    lemma_reached_child(dat, i, q1);
    lemma_reached_child(dat, i, q2);
    let redir = choose|redir: Seq<Option<StructRef>>| #[trigger] written_with(dat, w, redir) && forall|x: StructRef, y: StructRef|
        crate::dat::reached(&dat.pool, dat.symbol_refs().to_set(), x) && crate::dat::reached(
            &dat.pool,
            dat.symbol_refs().to_set(),
            y,
        ) && dedupable(dat, x) && dedupable(dat, y) && dat.pool.at(x as int).bytes() == dat.pool.at(
            y as int,
        ).bytes() ==> #[trigger] redirected(redir, x) == #[trigger] redirected(redir, y);
    assert(redirected(redir, t1) == redirected(redir, t2));
    let offs = choose|offs: Seq<Option<u32>>| #[trigger] written_graph(dat, w, offs, redir);
    assert(root_laid(dat, w, offs, i));
    let o = offs[r as int]->0;
    assert(pointer_ok(w, &dat.pool, offs, redir, r as int, q1));
    assert(pointer_ok(w, &dat.pool, offs, redir, r as int, q2));
    let ots = choose|ots: Map<u32, StructRef>| #[trigger] crate::dat::graph_of(
        back,
        w,
        crate::dat::file_cuts(w),
        crate::dat::file_relocs(w),
        crate::dat::file_root_offs(w),
        ots,
    );
    assert(crate::dat::root_keyed(back.roots@, crate::dat::file_root_offs(w), ots, i));
    let k = crate::dat::file_root_offs(w)[i];
    assert(k == crate::dat::symbol_data_off(w, crate::dat::symbol_entry(w, i)));
    assert(k == 0x20 + o);
    assert(ots.contains_key(k));
    let e = choose|e: u32| #[trigger] crate::dat::next_in(crate::dat::file_cuts(w), k, e);
    let st = back.pool.at(ots[k] as int);
    assert(crate::dat::slot_cut(st, w, k, e, crate::dat::file_relocs(w), ots));
    let rl = crate::dat::file_relocs(w);
    let len = st.bytes().len() as int;
    assert(st.refs().contains_key(q1));
    assert(crate::dat::wire_ok(rl, ots, k, e, len, q1));
    assert(crate::dat::wire_ok(rl, ots, k, e, len, q2));
    let p1 = (k + q1) as u32;
    let p2 = (k + q2) as u32;
    assert(st.refs()[q1] == ots[rl[p1]]);
    assert(st.refs()[q2] == ots[rl[p2]]);
    assert(rl[p1] == crate::dat::ptr_target(w, p1));
    assert(rl[p2] == crate::dat::ptr_target(w, p2));
    assert(p1 as int == 0x20 + o + q1);
    assert(p2 as int == 0x20 + o + q2);
}

/// Parsing a written image keeps the sharing between roots: roots that
/// named one struct name one struct again.  Left out, as for every written
/// image: images of 4 GiB or more, counts past 32 bits.
pub proof fn law_write_then_parse_keeps_aliases(dat: &Dat, w: Seq<u8>, back: &Dat)
    requires
        header_ok(dat, w),
        graph_written(dat, w),
        crate::dat::parsed_from(back, w),
        w.len() < 0x1_0000_0000,
        dat.roots@.len() < 0x1_0000_0000,
        dat.references@.len() < 0x1_0000_0000,
    ensures
        back.roots@.len() == dat.roots@.len(),
        forall|i: int, j: int|
            0 <= i < dat.roots@.len() && 0 <= j < dat.roots@.len() && #[trigger] dat.roots@[i].data
                == #[trigger] dat.roots@[j].data ==> back.roots@[i].data == back.roots@[j].data,
{
    assert(crate::dat::hdr(w, 3) == be32(w, 12));
    lemma_w32_id(dat.roots@.len() as int);
    let (offs, redir) = choose|offs: Seq<Option<u32>>, redir: Seq<Option<StructRef>>| #[trigger] written_graph(
        dat,
        w,
        offs,
        redir,
    );
    let ro = crate::dat::file_root_offs(w);
    let all = ro + crate::dat::file_ref_offs(w);
    assert forall|i: int, j: int|
        0 <= i < dat.roots@.len() && 0 <= j < dat.roots@.len() && #[trigger] dat.roots@[i].data
            == #[trigger] dat.roots@[j].data implies back.roots@[i].data == back.roots@[j].data by {
        assert(root_laid(dat, w, offs, i));
        assert(root_laid(dat, w, offs, j));
        assert(all[i] == ro[i] && all[j] == ro[j]);
        assert(back.symbol_refs()[i] == back.roots@[i].data);
        assert(back.symbol_refs()[j] == back.roots@[j].data);
    }
}

/// A struct list holding its starts and closed under references holds
/// every struct reached from them.
proof fn lemma_reached_in(pool: &StructPool, starts: Set<StructRef>, all: Seq<StructRef>, x: StructRef)
    requires
        forall|s: StructRef| #[trigger] starts.contains(s) ==> all.contains(s),
        forall|j: int, k: u32|
            0 <= j < all.len() && #[trigger] pool.at(all[j] as int).refs().contains_key(k) ==> all.contains(
                pool.at(all[j] as int).refs()[k],
            ),
        crate::dat::reached(pool, starts, x),
    ensures
        all.contains(x),
{
    let w = choose|w: Seq<StructRef>| #[trigger] dfs_order_ok(pool, w, starts) && w.contains(x);
    assert forall|m: int| 0 <= m < w.len() implies all.contains(#[trigger] w[m]) by {
        lemma_dfs_prefix_in(pool, starts, all, w, m);
    }
    let m = choose|m: int| 0 <= m < w.len() && w[m] == x;
    assert(all.contains(w[m]));
}

proof fn lemma_dfs_prefix_in(pool: &StructPool, starts: Set<StructRef>, all: Seq<StructRef>, w: Seq<StructRef>, m: int)
    requires
        forall|s: StructRef| #[trigger] starts.contains(s) ==> all.contains(s),
        forall|j: int, k: u32|
            0 <= j < all.len() && #[trigger] pool.at(all[j] as int).refs().contains_key(k) ==> all.contains(
                pool.at(all[j] as int).refs()[k],
            ),
        dfs_order_ok(pool, w, starts),
        0 <= m < w.len(),
    ensures
        all.contains(w[m]),
    decreases m,
{
    if !starts.contains(w[m]) {
        let i = choose|i: int| 0 <= i < m && pool.points_to(w[i] as int, w[m] as int);
        lemma_dfs_prefix_in(pool, starts, all, w, i);
        let k = choose|k: u32| #[trigger] pool.at(w[i] as int).refs().contains_key(k) && pool.at(w[i] as int).refs()[k] == w[m] as int;
        let j = choose|j: int| 0 <= j < all.len() && all[j] == w[i];
        assert(pool.at(all[j] as int).refs().contains_key(k));
    }
}

/// `w` holds `dat` after a merge that sends byte-equal dedupable buffers
/// reached from the symbols to one struct.
pub open spec fn dedup_written(dat: &Dat, w: Seq<u8>) -> bool {
    exists|redir: Seq<Option<StructRef>>| #[trigger] written_with(dat, w, redir) && forall|x: StructRef, y: StructRef|
        crate::dat::reached(&dat.pool, dat.symbol_refs().to_set(), x) && crate::dat::reached(
            &dat.pool,
            dat.symbol_refs().to_set(),
            y,
        ) && dedupable(dat, x) && dedupable(dat, y) && dat.pool.at(x as int).bytes() == dat.pool.at(
            y as int,
        ).bytes() ==> #[trigger] redirected(redir, x) == #[trigger] redirected(redir, y)
}

/// `w` holds `dat` laid out at some offsets after some merge.
pub open spec fn graph_written(dat: &Dat, w: Seq<u8>) -> bool {
    exists|offs: Seq<Option<u32>>, redir: Seq<Option<StructRef>>| #[trigger] written_graph(dat, w, offs, redir)
}

proof fn lemma_written_graph(
    dat: &Dat,
    cache: Seq<StructRef>,
    o1: Seq<u8>,
    offs: Seq<Option<u32>>,
    o2: Seq<u8>,
    rp: Seq<u32>,
    skip: Seq<bool>,
    redir: Seq<Option<StructRef>>,
    w: Seq<u8>,
)
    requires
        dat.wf(),
        crate::dat::slots_fit(&dat.pool),
        slots_apart(&dat.pool),
        offs.len() == dat.pool.len(),
        redir.len() == dat.pool.len(),
        skip.len() == dat.pool.len(),
        forall|x: int| 0 <= x < redir.len() ==> #[trigger] merged_ok(dat, redir, x),
        forall|x: int| 0 <= x < skip.len() ==> !#[trigger] skip[x],
        forall|j: int| 0 <= j < cache.len() ==> #[trigger] cache[j] < dat.pool.len(),
        layout_ok(o1, offs, &dat.pool),
        forall|x: int| 0 <= x < offs.len() ==> (#[trigger] offs[x] is Some <==> cache.contains(x as StructRef)),
        o2.len() == o1.len(),
        forall|p: int| 0 <= p < o2.len() && o2[p] != o1[p] ==> in_some_slot(&dat.pool, offs, p),
        forall|s: int, q: u32| #[trigger] done_outer(cache, &dat.pool, cache.len() as int, s, q) ==> listed_ok(rp, offs, skip, s, q),
        forall|idx: int| 0 <= idx < rp.len() ==> slot_listed(cache, &dat.pool, offs, skip, cache.len() as int, #[trigger] rp[idx]),
        forall|s: int, q: u32|
            #[trigger] done_outer(cache, &dat.pool, cache.len() as int, s, q) ==> pointer_ok(o2, &dat.pool, offs, redir, s, q),
        w.len() >= o2.len(),
        forall|p: int| 0x18 <= p < o2.len() ==> #[trigger] w[p] == o2[p],
        w.len() < 0x1_0000_0000,
        dat.pool.len() <= 0x1_0000_0000,
        crate::dat::reloc_table_pos(w) == o2.len(),
        crate::dat::hdr(w, 2) == rp.len(),
        o2.len() + 4 * rp.len() <= w.len(),
        forall|kk: int| 0 <= kk < rp.len() ==> #[trigger] be32(w, o2.len() + 4 * kk) == rp[kk],
        forall|k: int| 0 <= k < dat.roots@.len() + dat.references@.len() ==> #[trigger] data_entry(w, dat, offs, k),
    ensures
        written_graph(dat, w, offs, redir),
{
    let n = dat.pool.len();
    assert forall|x: int| 0 <= x < offs.len() implies #[trigger] laid_in(w, &dat.pool, offs, x) by {
        if let Some(o) = offs[x] {
            let sx = dat.pool.at(x);
            assert(laid_at(o1, offs, &dat.pool, x));
            assert forall|j: int| 0 <= j < sx.bytes().len() && !in_slot(sx, j) implies w[0x20 + o + j] == #[trigger] sx.bytes()[j] by {
                let p = 0x20 + o + j;
                assert(o1.subrange(0x20 + o, 0x20 + o + sx.bytes().len())[j] == o1[p]);
                if o2[p] != o1[p] {
                    assert(in_some_slot(&dat.pool, offs, p));
                    let (sp, q) = choose|sp: int, q: u32| #[trigger] in_slot_of(&dat.pool, offs, sp, q, p);
                    if sp == x {
                        assert(sx.refs().contains_key(q) && q <= j < q + 4);
                        assert(in_slot(sx, j));
                    } else {
                        assert(apart(offs, &dat.pool, x, sp));
                        assert(q + 4 <= dat.pool.at(sp).bytes().len());
                    }
                }
            }
        }
    }
    assert forall|x: int, q: u32|
        0 <= x < offs.len() && offs[x] is Some && #[trigger] dat.pool.at(x).refs().contains_key(q) implies pointer_ok(
            w,
            &dat.pool,
            offs,
            redir,
            x,
            q,
        ) && slot_in_table(w, w32(offs[x]->0 + q)) by {
        assert(cache.contains(x as StructRef));
        assert(x as StructRef == x);
        let i2 = choose|i2: int| 0 <= i2 < cache.len() && #[trigger] cache[i2] == x as StructRef;
        assert(cache[i2] == x);
        assert(done_outer(cache, &dat.pool, cache.len() as int, x, q));
        assert(pointer_ok(o2, &dat.pool, offs, redir, x, q));
        let o = offs[x]->0;
        assert(laid_at(o1, offs, &dat.pool, x));
        assert(q + 4 <= dat.pool.at(x).bytes().len());
        let p = 0x20 + o + q;
        assert(w[p] == o2[p]);
        assert(w[p + 1] == o2[p + 1]);
        assert(w[p + 2] == o2[p + 2]);
        assert(w[p + 3] == o2[p + 3]);
        assert(listed_ok(rp, offs, skip, x, q));
        let idx = choose|idx: int| 0 <= idx < rp.len() && #[trigger] rp[idx] == w32(o + q);
        assert(be32(w, o2.len() + 4 * idx) == rp[idx]);
    }
    assert forall|i: int| 0 <= i < crate::dat::hdr(w, 2) implies #[trigger] reloc_entry_is_slot(dat, w, offs, i) by {
        assert(slot_listed(cache, &dat.pool, offs, skip, cache.len() as int, rp[i]));
        let (s2, q2) = choose|s2: int, q2: u32|
            #[trigger] done_outer(cache, &dat.pool, cache.len() as int, s2, q2) && !(skip[s2] && q2 == 0) && (offs[s2] matches Some(o) && rp[i] == w32(o + q2));
        let i2 = choose|i2: int| 0 <= i2 < cache.len() && #[trigger] cache[i2] == s2 && dat.pool.at(s2).refs().contains_key(q2);
        assert(be32(w, o2.len() + 4 * i) == rp[i]);
        assert(slot_rel(dat, offs, s2, q2, be32(w, crate::dat::reloc_table_pos(w) + 4 * i)));
    }
    assert forall|i: int| 0 <= i < dat.roots@.len() implies #[trigger] root_laid(dat, w, offs, i) by {
        assert(data_entry(w, dat, offs, i));
        assert(symbol_data(dat, i) == dat.roots@[i].data);
        let x = dat.roots@[i].data as int;
        let o = offs[x]->0;
        assert(laid_at(o1, offs, &dat.pool, x));
        lemma_w32_id(o + 0x20);
    }
}

/// Every pointer of a struct of `cache`, after the merge `redir`, names a
/// struct of `cache`.
pub open spec fn cache_closed(pool: &StructPool, cache: Seq<StructRef>, redir: Seq<Option<StructRef>>) -> bool {
    forall|j: int, q: u32|
        0 <= j < cache.len() && #[trigger] pool.at(cache[j] as int).refs().contains_key(q) ==> cache.contains(
            redirected(redir, pool.at(cache[j] as int).refs()[q]),
        )
}

/// Every symbol's struct is in `cache`.
pub open spec fn symbols_cached(dat: &Dat, cache: Seq<StructRef>) -> bool {
    forall|k: int| 0 <= k < dat.roots@.len() + dat.references@.len() ==> cache.contains(#[trigger] symbol_data(dat, k))
}

/// The image of `cache` stays below 4 GiB with room for its tables.
pub open spec fn emit_fits(dat: &Dat, cache: Seq<StructRef>) -> bool {
    let l = laid_size(&dat.pool, cache, cache.len() as int);
    &&& 0x80 + l < 0x1_0000_0000
    &&& tables_fit(dat, 0x24 + l, slot_total(&dat.pool, cache, cache.len() as int))
}

/// `c` holds the index `x`.
pub open spec fn holds(c: Seq<StructRef>, x: int) -> bool {
    exists|j: int| 0 <= j < c.len() && #[trigger] c[j] as int == x
}

/// Sum of `f` over the first `i` entries of `c`.
pub open spec fn sum_over(f: spec_fn(int) -> int, c: Seq<StructRef>, i: int) -> int
    decreases i,
{
    if i <= 0 {
        0
    } else {
        sum_over(f, c, i - 1) + f(c[i - 1] as int)
    }
}

/// Sum of `f` over the indices below `n` that `c` holds.
pub open spec fn sum_held(f: spec_fn(int) -> int, n: int, c: Seq<StructRef>) -> int
    decreases n,
{
    if n <= 0 {
        0
    } else {
        sum_held(f, n - 1, c) + (if holds(c, n - 1) {
            f(n - 1)
        } else {
            0
        })
    }
}

/// Sum of `f` over all indices below `n`.
pub open spec fn sum_below(f: spec_fn(int) -> int, n: int) -> int
    decreases n,
{
    if n <= 0 {
        0
    } else {
        sum_below(f, n - 1) + f(n - 1)
    }
}

proof fn lemma_sum_held_push(f: spec_fn(int) -> int, n: int, c: Seq<StructRef>, e: StructRef)
    requires
        !holds(c, e as int),
    ensures
        sum_held(f, n, c.push(e)) == sum_held(f, n, c) + (if 0 <= e < n {
            f(e as int)
        } else {
            0
        }),
    decreases n,
{
    if n > 0 {
        lemma_sum_held_push(f, n - 1, c, e);
        let d = c.push(e);
        if holds(d, n - 1) {
            let j = choose|j: int| 0 <= j < d.len() && #[trigger] d[j] as int == n - 1;
            if j < c.len() {
                assert(c[j] as int == n - 1);
            }
        }
        if holds(c, n - 1) {
            let j = choose|j: int| 0 <= j < c.len() && #[trigger] c[j] as int == n - 1;
            assert(d[j] as int == n - 1);
        }
        if e == n - 1 {
            assert(d[c.len() as int] as int == n - 1);
        }
    }
}

proof fn lemma_sum_held_le(f: spec_fn(int) -> int, n: int, c: Seq<StructRef>)
    requires
        forall|x: int| 0 <= x < n ==> #[trigger] f(x) >= 0,
    ensures
        0 <= sum_held(f, n, c) <= sum_below(f, n),
    decreases n,
{
    if n > 0 {
        lemma_sum_held_le(f, n - 1, c);
        assert(f(n - 1) >= 0);
    }
}

/// The sum of a non-negative `f` over distinct entries of `c` below `n` is
/// at most its sum over all indices below `n`.
proof fn lemma_sum_over_distinct(f: spec_fn(int) -> int, n: int, c: Seq<StructRef>)
    requires
        c.no_duplicates(),
        forall|j: int| 0 <= j < c.len() ==> #[trigger] c[j] < n,
        forall|x: int| 0 <= x < n ==> #[trigger] f(x) >= 0,
    ensures
        sum_over(f, c, c.len() as int) == sum_held(f, n, c),
        sum_over(f, c, c.len() as int) <= sum_below(f, n),
    decreases c.len(),
{
    if c.len() == 0 {
        lemma_sum_held_le(f, n, c);
        assert forall|m: int| 0 <= m <= n implies sum_held(f, m, c) == 0 by {
            lemma_sum_held_zero(f, m, c);
        }
    } else {
        let c1 = c.drop_last();
        let e = c.last();
        assert(c1.push(e) =~= c);
        assert(!holds(c1, e as int)) by {
            if holds(c1, e as int) {
                let j = choose|j: int| 0 <= j < c1.len() && #[trigger] c1[j] as int == e as int;
                assert(c[j] == c[c.len() - 1]);
            }
        }
        lemma_sum_over_distinct(f, n, c1);
        lemma_sum_held_push(f, n, c1, e);
        assert forall|i: int| 0 <= i <= c1.len() implies sum_over(f, c1, i) == sum_over(f, c, i) by {
            lemma_sum_over_prefix(f, c1, c, i);
        }
        lemma_sum_held_le(f, n, c);
    }
}

proof fn lemma_sum_held_zero(f: spec_fn(int) -> int, n: int, c: Seq<StructRef>)
    requires
        c.len() == 0,
    ensures
        sum_held(f, n, c) == 0,
    decreases n,
{
    if n > 0 {
        lemma_sum_held_zero(f, n - 1, c);
    }
}

proof fn lemma_sum_over_prefix(f: spec_fn(int) -> int, a: Seq<StructRef>, b: Seq<StructRef>, i: int)
    requires
        0 <= i <= a.len(),
        i <= b.len(),
        forall|j: int| 0 <= j < i ==> a[j] == b[j],
    ensures
        sum_over(f, a, i) == sum_over(f, b, i),
    decreases i,
{
    if i > 0 {
        lemma_sum_over_prefix(f, a, b, i - 1);
    }
}

/// Room a layout of struct `x` takes at most.
pub open spec fn laid_room(pool: &StructPool) -> spec_fn(int) -> int {
    |x: int| pool.at(x).bytes().len() as int + 0x20
}

/// Pointer slots of struct `x`.
pub open spec fn slot_count(pool: &StructPool) -> spec_fn(int) -> int {
    |x: int| pool.at(x).ref_pairs().len() as int
}

proof fn lemma_laid_size_sum(pool: &StructPool, c: Seq<StructRef>, i: int)
    ensures
        laid_size(pool, c, i) == sum_over(laid_room(pool), c, i),
        slot_total(pool, c, i) == sum_over(slot_count(pool), c, i),
    decreases i,
{
    if i > 0 {
        lemma_laid_size_sum(pool, c, i - 1);
    }
}

/// Every struct of `dat`, each with its padding, fits below 4 GiB with room
/// for the tables.
pub open spec fn pool_fits(dat: &Dat) -> bool {
    let l = sum_below(laid_room(&dat.pool), dat.pool.len() as int);
    &&& 0x80 + l < 0x1_0000_0000
    &&& tables_fit(dat, 0x24 + l, sum_below(slot_count(&dat.pool), dat.pool.len() as int))
}

/// A cache of distinct structs of a pool that fits makes an image that fits.
proof fn lemma_emit_fits(dat: &Dat, c: Seq<StructRef>)
    requires
        pool_fits(dat),
        c.no_duplicates(),
        forall|j: int| 0 <= j < c.len() ==> #[trigger] c[j] < dat.pool.len(),
    ensures
        emit_fits(dat, c),
{
    let n = dat.pool.len() as int;
    assert forall|x: int| 0 <= x < n implies #[trigger] laid_room(&dat.pool)(x) >= 0 by {}
    assert forall|x: int| 0 <= x < n implies #[trigger] slot_count(&dat.pool)(x) >= 0 by {}
    lemma_sum_over_distinct(laid_room(&dat.pool), n, c);
    lemma_sum_over_distinct(slot_count(&dat.pool), n, c);
    lemma_laid_size_sum(&dat.pool, c, c.len() as int);
}

/// Lay out `cache` and write the image.
fn emit(dat: &Dat, opts: WriteOptions, cache: &Vec<StructRef>, redirect: &Vec<Option<StructRef>>) -> (r:
    Result<Vec<u8>>)
    requires
        dat.wf(),
        forall|j: int| 0 <= j < cache@.len() ==> #[trigger] cache@[j] < dat.pool.len(),
        redirect@.len() == dat.pool.len(),
        forall|x: int| 0 <= x < redirect@.len() ==> (#[trigger] redirect@[x] matches Some(t) ==> t
            < dat.pool.len()),
        forall|x: int| 0 <= x < redirect@.len() ==> #[trigger] merged_ok(dat, redirect@, x),
    ensures
        r matches Ok(w) ==> header_ok(dat, w@),
        r matches Ok(w) ==> (w@.len() < 0x1_0000_0000 ==> names_written(dat, w@)),
        r matches Ok(w) ==> (w@.len() < 0x1_0000_0000 && crate::dat::slots_fit(&dat.pool) ==> symbols_laid(
            dat,
            w@,
        )),
        r matches Ok(w) ==> (w@.len() < 0x1_0000_0000 && dat.references@.len() == 0 && crate::dat::slots_fit(&dat.pool)
            && slots_apart(&dat.pool) && dat.pool.len() <= 0x1_0000_0000 ==> graph_written(dat, w@) && written_with(
            dat,
            w@,
            redirect@,
        )),
        emit_fits(dat, cache@) && crate::dat::slots_fit(&dat.pool) && cache_closed(&dat.pool, cache@, redirect@)
            && symbols_cached(dat, cache@) ==> r is Ok,
{
    let ghost owed = emit_fits(dat, cache@) && crate::dat::slots_fit(&dat.pool) && cache_closed(
        &dat.pool,
        cache@,
        redirect@,
    ) && symbols_cached(dat, cache@);
    let (mut out, offset_of) = lay_out(dat, opts, cache)?;
    let ghost o1 = out@;
    let skip = ref_chain_skip(dat, redirect);
    proof {
        if owed {
            assert(layout_ok(o1, offset_of@, &dat.pool));
            assert forall|j: int| 0 <= j < cache@.len() implies #[trigger] patchable(
                &dat.pool,
                cache@,
                redirect@,
                offset_of@,
                o1.len() as int,
                j,
            ) by {
                let x = cache@[j];
                assert(cache@.contains(x));
                assert(offset_of@[x as int] is Some);
                assert(laid_at(o1, offset_of@, &dat.pool, x as int));
                assert forall|q: u32| #[trigger] dat.pool.at(x as int).refs().contains_key(q) implies slot_patchable(
                    &dat.pool,
                    redirect@,
                    offset_of@,
                    o1.len() as int,
                    x as int,
                    q,
                ) by {
                    let t = redirected(redirect@, dat.pool.at(x as int).refs()[q]);
                    assert(dat.pool.at(cache@[j] as int).refs().contains_key(q));
                    assert(cache@.contains(t));
                    assert(offset_of@[t as int] is Some);
                }
            }
        }
    }
    let reloc_positions = patch_pointers(dat, cache, redirect, &skip, &offset_of, &mut out)?;
    let ghost o2 = out@;
    proof {
        if owed {
            assert forall|k: int| 0 <= k < dat.roots@.len() + dat.references@.len() implies offset_of@[
                #[trigger] symbol_data(dat, k) as int] is Some by {
                assert(cache@.contains(symbol_data(dat, k)));
            }
            assert(symbol_structs_laid(dat, offset_of@));
            assert(tables_fit(dat, o2.len() as int, reloc_positions@.len() as int));
        }
    }
    let r = write_tables(dat, &offset_of, &reloc_positions, out);
    proof {
        if r is Ok {
            let w = r->Ok_0;
            if w@.len() < 0x1_0000_0000 && crate::dat::slots_fit(&dat.pool) {
                lemma_symbols_laid(dat, o1, offset_of@, o2, w@);
            }
            if w@.len() < 0x1_0000_0000 && dat.references@.len() == 0 && crate::dat::slots_fit(&dat.pool)
                && slots_apart(&dat.pool) && dat.pool.len() <= 0x1_0000_0000 {
                assert(layout_ok(o1, offset_of@, &dat.pool));
                assert(slots_separate(&dat.pool, offset_of@));
                lemma_written_graph(dat, cache@, o1, offset_of@, o2, reloc_positions@, skip@, redirect@, w@);
                assert(written_graph(dat, w@, offset_of@, redirect@));
                assert(written_with(dat, w@, redirect@));
            }
        }
    }
    r
}

/// The pointers of the structs of the recorded order name structs of it.
pub open spec fn order_closed(dat: &Dat) -> bool {
    forall|j: int, q: u32|
        0 <= j < dat.struct_order@.len() && #[trigger] dat.pool.at(dat.struct_order@[j] as int).refs().contains_key(q)
            ==> dat.struct_order@.contains(dat.pool.at(dat.struct_order@[j] as int).refs()[q])
}

/// Writing `dat` with `opts` succeeds: pointer slots fit their structs,
/// the image stays below 4 GiB, and without the merge the recorded order
/// keeps the targets of its structs.
pub open spec fn write_owed(dat: &Dat, opts: WriteOptions) -> bool {
    &&& crate::dat::slots_fit(&dat.pool)
    &&& pool_fits(dat)
    &&& !opts.optimize ==> order_closed(dat)
}

impl Dat {
    /// Serialise with the default options.
    pub fn write(&self) -> (r: Result<Vec<u8>>)
        requires
            self.wf(),
        ensures
            r matches Ok(w) ==> header_ok(self, w@),
            r matches Ok(w) ==> (w@.len() < 0x1_0000_0000 ==> names_written(self, w@)),
            r matches Ok(w) ==> (w@.len() < 0x1_0000_0000 && crate::dat::slots_fit(&self.pool) ==> symbols_laid(
                self,
                w@,
            )),
            r matches Ok(w) ==> (w@.len() < 0x1_0000_0000 && self.references@.len() == 0 && crate::dat::slots_fit(
                &self.pool,
            ) && slots_apart(&self.pool) && self.pool.len() <= 0x1_0000_0000 ==> graph_written(self, w@)),
            crate::dat::slots_fit(&self.pool) && pool_fits(self) ==> r is Ok,
            r matches Ok(w) ==> (w@.len() < 0x1_0000_0000 && self.references@.len() == 0 && crate::dat::slots_fit(
                &self.pool,
            ) && slots_apart(&self.pool) && self.pool.len() <= 0x1_0000_0000 ==> dedup_written(self, w@)),
    {
        self.write_with_options(WriteOptions::default())
    }

    /// Serialise with explicit options.
    #[verifier::rlimit(60)]
    #[verifier::spinoff_prover]
    pub fn write_with_options(&self, opts: WriteOptions) -> (r: Result<Vec<u8>>)
        requires
            self.wf(),
        ensures
            r matches Ok(w) ==> header_ok(self, w@),
            r matches Ok(w) ==> (w@.len() < 0x1_0000_0000 ==> names_written(self, w@)),
            r matches Ok(w) ==> (w@.len() < 0x1_0000_0000 && crate::dat::slots_fit(&self.pool) ==> symbols_laid(
                self,
                w@,
            )),
            r matches Ok(w) ==> (w@.len() < 0x1_0000_0000 && self.references@.len() == 0 && crate::dat::slots_fit(
                &self.pool,
            ) && slots_apart(&self.pool) && self.pool.len() <= 0x1_0000_0000 ==> graph_written(self, w@)),
            write_owed(self, opts) ==> r is Ok,
            r matches Ok(w) ==> (opts.optimize && w@.len() < 0x1_0000_0000 && self.references@.len() == 0
                && crate::dat::slots_fit(&self.pool) && slots_apart(&self.pool) && self.pool.len() <= 0x1_0000_0000
                ==> dedup_written(self, w@)),
    {
        let starts = crate::dat::symbol_starts(&self.roots, &self.references, Ghost(self.pool.len()));
        let (in_all, all) = crate::dat::walk_from(&self.pool, &starts);
        let cache = populate_cache(self, opts, &all, &in_all);
        let n = self.pool.len_exec();
        proof {
            assert forall|k: int| 0 <= k < self.roots@.len() + self.references@.len() implies all@.contains(
                #[trigger] symbol_data(self, k),
            ) && self.symbol_refs().contains(symbol_data(self, k)) by {
                assert(starts@[k] == symbol_data(self, k));
                assert(in_all@[starts@[k] as int]);
                assert(self.symbol_refs()[k] == symbol_data(self, k));
            }
        }
        if opts.optimize {
            let redirect = find_duplicate_buffers(self, &cache);
            let mut kept: Vec<StructRef> = Vec::new();
            let mut i: usize = 0;
            while i < cache.len()
                invariant
                    redirect@.len() == n,
                    n == self.pool.len(),
                    forall|j: int| 0 <= j < cache@.len() ==> #[trigger] cache@[j] < n,
                    cache@.no_duplicates(),
                    kept@.no_duplicates(),
                    forall|j: int| 0 <= j < kept@.len() ==> #[trigger] kept@[j] < n,
                    forall|x: StructRef| #[trigger] kept@.contains(x) ==> cache@.subrange(0, i as int).contains(x),
                    forall|j: int| 0 <= j < i && redirect@[cache@[j] as int] is None ==> kept@.contains(#[trigger] cache@[j]),
                    i <= cache@.len(),
                decreases cache@.len() - i,
            {
                let s = cache[i];
                if redirect[s].is_none() {
                    let ghost k0 = kept@;
                    proof {
                        assert(!k0.contains(s)) by {
                            if k0.contains(s) {
                                let m = choose|m: int| 0 <= m < i && cache@[m] == s;
                                assert(cache@.subrange(0, i as int).contains(s));
                            }
                        }
                    }
                    kept.push(s);
                    proof {
                        lemma_add_one(k0, kept@, s);
                    }
                }
                proof {
                    assert(cache@[i as int] == s);
                }
                proof {
                    assert forall|x: StructRef| #[trigger] kept@.contains(x) implies cache@.subrange(0, i + 1).contains(x) by {
                        if x == s {
                            assert(cache@.subrange(0, i + 1)[i as int] == s);
                        } else {
                            let m = choose|m: int| 0 <= m < i && cache@[m] == x;
                            assert(cache@.subrange(0, i + 1)[m] == x);
                        }
                    }
                }
                i = i + 1;
            }
            proof {
                assert forall|x: int| 0 <= x < redirect@.len() implies (#[trigger] redirect@[x] matches Some(t) ==> t
                    < n) by {
                    assert(redirect_entry(self, cache@, redirect@, x));
                }
                assert forall|x: int| 0 <= x < redirect@.len() implies #[trigger] merged_ok(self, redirect@, x) by {
                    assert(redirect_entry(self, cache@, redirect@, x));
                }
                if write_owed(self, opts) {
                    assert(cache@.subrange(0, cache@.len() as int) =~= cache@);
                    lemma_emit_fits(self, kept@);
                    assert forall|x: StructRef| cache@.contains(x) && redirect@[x as int] is None implies kept@.contains(x) by {
                        let j = choose|j: int| 0 <= j < cache@.len() && cache@[j] == x;
                        assert(kept@.contains(cache@[j]));
                    }
                    assert forall|j: int, q: u32|
                        0 <= j < kept@.len() && #[trigger] self.pool.at(kept@[j] as int).refs().contains_key(q) implies kept@.contains(
                        redirected(redirect@, self.pool.at(kept@[j] as int).refs()[q]),
                    ) by {
                        let x = kept@[j];
                        assert(kept@.contains(x));
                        assert(cache@.contains(x));
                        let j2 = choose|j2: int| 0 <= j2 < cache@.len() && cache@[j2] == x;
                        assert(all@.contains(cache@[j2]));
                        let j3 = choose|j3: int| 0 <= j3 < all@.len() && all@[j3] == x;
                        let t = self.pool.at(x as int).refs()[q];
                        assert(self.pool.at(all@[j3] as int).refs().contains_key(q));
                        assert(all@.contains(t));
                        let j4 = choose|j4: int| 0 <= j4 < all@.len() && all@[j4] == t;
                        assert(cache@.contains(all@[j4]));
                        assert(self.pool.at(x as int).wf() && self.pool.at(x as int).refs_below(self.pool.len()));
                        assert(redirect_entry(self, cache@, redirect@, t as int));
                    }
                    assert(cache_closed(&self.pool, kept@, redirect@));
                    assert forall|k: int| 0 <= k < self.roots@.len() + self.references@.len() implies kept@.contains(
                        #[trigger] symbol_data(self, k),
                    ) by {
                        let x = symbol_data(self, k);
                        assert(all@.contains(x));
                        let j = choose|j: int| 0 <= j < all@.len() && all@[j] == x;
                        assert(cache@.contains(all@[j]));
                        assert(redirect_entry(self, cache@, redirect@, x as int));
                    }
                    assert(symbols_cached(self, kept@));
                }
            }
            let r = emit(self, opts, &kept, &redirect);
            proof {
                if r is Ok {
                    let w = r->Ok_0;
                    if w@.len() < 0x1_0000_0000 && self.references@.len() == 0 && crate::dat::slots_fit(&self.pool)
                        && slots_apart(&self.pool) && self.pool.len() <= 0x1_0000_0000 {
                        assert(written_with(self, w@, redirect@));
                        assert forall|x: StructRef, y: StructRef|
                            crate::dat::reached(&self.pool, self.symbol_refs().to_set(), x) && crate::dat::reached(
                                &self.pool,
                                self.symbol_refs().to_set(),
                                y,
                            ) && dedupable(self, x) && dedupable(self, y) && self.pool.at(x as int).bytes()
                                == self.pool.at(y as int).bytes() implies #[trigger] redirected(redirect@, x)
                            == #[trigger] redirected(redirect@, y) by {
                            assert forall|s2: StructRef| #[trigger] self.symbol_refs().to_set().contains(s2) implies all@.contains(s2) by {
                                let k = choose|k: int| 0 <= k < self.symbol_refs().len() && self.symbol_refs()[k] == s2;
                                assert(starts@[k] == s2);
                                assert(in_all@[starts@[k] as int]);
                            }
                            lemma_reached_in(&self.pool, self.symbol_refs().to_set(), all@, x);
                            lemma_reached_in(&self.pool, self.symbol_refs().to_set(), all@, y);
                            let jx = choose|j: int| 0 <= j < all@.len() && all@[j] == x;
                            let jy = choose|j: int| 0 <= j < all@.len() && all@[j] == y;
                            assert(cache@.contains(all@[jx]));
                            assert(cache@.contains(all@[jy]));
                        }
                        assert(dedup_written(self, w@));
                    }
                }
            }
            r
        } else {
            let redirect: Vec<Option<StructRef>> = vec![None; n];
            proof {
                assert forall|x: int| 0 <= x < redirect@.len() implies #[trigger] merged_ok(self, redirect@, x) by {}
                if write_owed(self, opts) {
                    lemma_emit_fits(self, cache@);
                    assert forall|j: int, q: u32|
                        0 <= j < cache@.len() && #[trigger] self.pool.at(cache@[j] as int).refs().contains_key(q) implies cache@.contains(
                        redirected(redirect@, self.pool.at(cache@[j] as int).refs()[q]),
                    ) by {
                        let x = cache@[j];
                        let t = self.pool.at(x as int).refs()[q];
                        assert(self.pool.at(x as int).wf() && self.pool.at(x as int).refs_below(self.pool.len()));
                        assert(redirected(redirect@, t) == t);
                        if all@.contains(x) {
                            let j3 = choose|j3: int| 0 <= j3 < all@.len() && all@[j3] == x;
                            assert(self.pool.at(all@[j3] as int).refs().contains_key(q));
                            assert(all@.contains(t));
                            let j4 = choose|j4: int| 0 <= j4 < all@.len() && all@[j4] == t;
                            assert(cache@.contains(all@[j4]));
                        } else {
                            assert(self.struct_order@.contains(x));
                            let j3 = choose|j3: int| 0 <= j3 < self.struct_order@.len() && self.struct_order@[j3] == x;
                            assert(self.pool.at(self.struct_order@[j3] as int).refs().contains_key(q));
                            assert(self.struct_order@.contains(t));
                            let j4 = choose|j4: int| 0 <= j4 < self.struct_order@.len() && self.struct_order@[j4] == t;
                            assert(cache@.contains(self.struct_order@[j4]));
                        }
                    }
                    assert(cache_closed(&self.pool, cache@, redirect@));
                    assert forall|k: int| 0 <= k < self.roots@.len() + self.references@.len() implies cache@.contains(
                        #[trigger] symbol_data(self, k),
                    ) by {
                        let x = symbol_data(self, k);
                        assert(all@.contains(x));
                        let j = choose|j: int| 0 <= j < all@.len() && all@[j] == x;
                        assert(cache@.contains(all@[j]));
                    }
                    assert(symbols_cached(self, cache@));
                }
            }
            emit(self, opts, &cache, &redirect)
        }
    }
}

} // verus!
