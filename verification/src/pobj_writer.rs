//! Building a POBJ (attribute table, per-attribute vertex buffers and a GX
//! display list) from CPU-side mesh data.
//!
//! One attribute group per POBJ; POS / NRM as three `f32`, CLR0 as RGBA8,
//! TEX0 as two `f32`, all addressed with 16-bit indices.  Floating-point
//! values are taken and stored as their IEEE-754 bit patterns.  The display
//! list is greedy triangle strips plus one group of leftover triangles (or,
//! on request, a single group of triangles).

use crate::accessor::Accessor;
use crate::be::{be16, be16_bytes, be32_bytes, lemma_be16_roundtrip, push_be16, push_be32, splice, u16_of};
use crate::common::{JObj, PObj};
use crate::error::{HsdError, Result};
use crate::gx::{GxAttribName, GxAttribType, GxCompType, GxPrimitiveType, PObjFlag};
use crate::gx_dl::{groups_read, prepend_groups, vertex_read, verts_read, GxAttribute, RawGroup, RawVertex};
use crate::hsd_struct::{count_false, lemma_count_false_flip, HsdStruct, StructPool, StructRef};
use vstd::prelude::*;

verus! {

// ---------------------------------------------------------------------
// Triangle strips
// ---------------------------------------------------------------------

/// Undirected key of the edge `(x, y)`.
pub open spec fn edge_key(x: u32, y: u32) -> (u32, u32) {
    if x < y {
        (x, y)
    } else {
        (y, x)
    }
}

/// Triangle `t` has an edge with key `k`.
pub open spec fn has_edge(t: [u32; 3], k: (u32, u32)) -> bool {
    edge_key(t[0], t[1]) == k || edge_key(t[1], t[2]) == k || edge_key(t[2], t[0]) == k
}

/// The vertex set of a triangle.
pub open spec fn tri_set(t: [u32; 3]) -> Set<u32> {
    set![t[0], t[1], t[2]]
}

/// The vertex set of the triangle a strip draws at position `i`.
pub open spec fn strip_tri(s: Seq<u32>, i: int) -> Set<u32> {
    set![s[i], s[i + 1], s[i + 2]]
}

fn key_exec(x: u32, y: u32) -> (k: (u32, u32))
    ensures
        k == edge_key(x, y),
{
    if x < y {
        (x, y)
    } else {
        (y, x)
    }
}

fn has_edge_exec(t: &[u32; 3], k: (u32, u32)) -> (b: bool)
    ensures
        b == has_edge(*t, k),
{
    let k0 = key_exec(t[0], t[1]);
    let k1 = key_exec(t[1], t[2]);
    let k2 = key_exec(t[2], t[0]);
    (k0.0 == k.0 && k0.1 == k.1) || (k1.0 == k.0 && k1.1 == k.1) || (k2.0 == k.0 && k2.1 == k.1)
}

/// The first triangle from `j` on that is not used and has the edge `k`.
pub open spec fn next_from(tris: Seq<[u32; 3]>, used: Seq<bool>, k: (u32, u32), j: int) -> Option<int>
    decreases tris.len() - j,
{
    if j < 0 || j >= tris.len() {
        None
    } else if !used[j] && has_edge(tris[j], k) {
        Some(j)
    } else {
        next_from(tris, used, k, j + 1)
    }
}

/// The vertex of `n` off the edge `(l1, l2)`, the last one when none is.
pub open spec fn third_of(n: [u32; 3], l1: u32, l2: u32) -> u32 {
    if n[0] != l1 && n[0] != l2 {
        n[0]
    } else if n[1] != l1 && n[1] != l2 {
        n[1]
    } else {
        n[2]
    }
}

/// Grow `strip` for at most `fuel` steps: while its last edge is shared
/// with an unused triangle, the first such triangle is used and its third
/// vertex extends the strip.  Gives the strip and the used marks.
pub open spec fn grow_spec(tris: Seq<[u32; 3]>, used: Seq<bool>, strip: Seq<u32>, fuel: nat) -> (Seq<u32>, Seq<bool>)
    decreases fuel,
{
    if fuel == 0 || strip.len() < 2 {
        (strip, used)
    } else {
        let l1 = strip[strip.len() - 2];
        let l2 = strip[strip.len() - 1];
        match next_from(tris, used, edge_key(l1, l2), 0) {
            None => (strip, used),
            Some(j) => grow_spec(
                tris,
                used.update(j, true),
                strip.push(third_of(tris[j], l1, l2)),
                (fuel - 1) as nat,
            ),
        }
    }
}

/// Triangle `t` in orientation `orient`: its vertices rotated left that many
/// times.
pub open spec fn oriented(t: [u32; 3], orient: u8) -> Seq<u32> {
    if orient == 0 {
        seq![t[0], t[1], t[2]]
    } else if orient == 1 {
        seq![t[1], t[2], t[0]]
    } else {
        seq![t[2], t[0], t[1]]
    }
}

/// The strip grown from `seed` in orientation `orient` with the triangles
/// marked in `visited` taken, and the marks after it.
pub open spec fn grown(tris: Seq<[u32; 3]>, visited: Seq<bool>, seed: int, orient: u8) -> (Seq<u32>, Seq<bool>) {
    let u = visited.update(seed, true);
    grow_spec(tris, u, oriented(tris[seed], orient), count_false(u))
}

/// The longest of three grown strips, the first on ties.
pub open spec fn longest(g0: (Seq<u32>, Seq<bool>), g1: (Seq<u32>, Seq<bool>), g2: (Seq<u32>, Seq<bool>)) -> (Seq<u32>, Seq<bool>) {
    let b = if g1.0.len() > g0.0.len() {
        g1
    } else {
        g0
    };
    if g2.0.len() > b.0.len() {
        g2
    } else {
        b
    }
}

/// The greedy stripper from triangle `seed` on, with `visited` marking the
/// triangles already drawn: the strips and the leftover triangles it gives.
pub open spec fn greedy(tris: Seq<[u32; 3]>, min_verts: int, visited: Seq<bool>, seed: int) -> (Seq<Seq<u32>>, Seq<[u32; 3]>)
    decreases tris.len() - seed,
{
    if seed < 0 || seed >= tris.len() {
        (Seq::empty(), Seq::empty())
    } else if visited[seed] {
        greedy(tris, min_verts, visited, seed + 1)
    } else {
        let best = longest(grown(tris, visited, seed, 0), grown(tris, visited, seed, 1), grown(tris, visited, seed, 2));
        if best.0.len() >= min_verts {
            let rest = greedy(tris, min_verts, best.1, seed + 1);
            (seq![best.0] + rest.0, rest.1)
        } else {
            let rest = greedy(tris, min_verts, visited.update(seed, true), seed + 1);
            (rest.0, seq![tris[seed]] + rest.1)
        }
    }
}

/// The first triangle not yet used that has the edge `(a, b)`.
fn find_next(tris: &[[u32; 3]], used: &Vec<bool>, a: u32, b: u32) -> (r: Option<usize>)
    requires
        used@.len() == tris@.len(),
    ensures
        r matches Some(j) ==> j < tris@.len() && !used@[j as int] && has_edge(
            tris@[j as int],
            edge_key(a, b),
        ) && forall|i: int|
            0 <= i < j ==> used@[i] || !has_edge(#[trigger] tris@[i], edge_key(a, b)),
        r is None ==> forall|i: int|
            0 <= i < tris@.len() ==> used@[i] || !has_edge(#[trigger] tris@[i], edge_key(a, b)),
        next_from(tris@, used@, edge_key(a, b), 0) == (match r {
            Some(j) => Some(j as int),
            None => None::<int>,
        }),
{
    let k = key_exec(a, b);
    let mut j: usize = 0;
    while j < tris.len()
        invariant
            used@.len() == tris@.len(),
            k == edge_key(a, b),
            j <= tris@.len(),
            next_from(tris@, used@, k, 0) == next_from(tris@, used@, k, j as int),
            forall|i: int| 0 <= i < j ==> used@[i] || !has_edge(#[trigger] tris@[i], k),
        decreases tris@.len() - j,
    {
        if !used[j] && has_edge_exec(&tris[j], k) {
            return Some(j);
        }
        j = j + 1;
    }
    None
}

/// The vertex of `n` off the edge `(l1, l2)`, the last one when none is.
fn third_vertex(n: &[u32; 3], l1: u32, l2: u32) -> (v: u32)
    requires
        has_edge(*n, edge_key(l1, l2)),
    ensures
        tri_set(*n) == set![l1, l2, v],
        v == third_of(*n, l1, l2),
{
    let v = if n[0] != l1 && n[0] != l2 {
        n[0]
    } else if n[1] != l1 && n[1] != l2 {
        n[1]
    } else {
        n[2]
    };
    proof {
        assert(tri_set(*n) =~= set![l1, l2, v]);
    }
    v
}

fn copy_flags(v: &Vec<bool>) -> (r: Vec<bool>)
    ensures
        r@ == v@,
{
    let mut r: Vec<bool> = Vec::new();
    let mut i: usize = 0;
    while i < v.len()
        invariant
            i <= v@.len(),
            r@ == v@.take(i as int),
        decreases v@.len() - i,
    {
        r.push(v[i]);
        proof {
            assert(v@.take(i + 1) =~= v@.take(i as int).push(v@[i as int]));
        }
        i = i + 1;
    }
    proof {
        assert(v@.take(v@.len() as int) =~= v@);
    }
    r
}

proof fn lemma_count_false_step(a: Seq<bool>, i: int)
    requires
        0 <= i < a.len(),
        !a[i],
    ensures
        count_false(a.update(i, true)) + 1 == count_false(a),
    decreases a.len(),
{
    let b = a.update(i, true);
    if i == a.len() - 1 {
        assert(b.drop_last() =~= a.drop_last());
    } else {
        assert(b.drop_last() =~= a.drop_last().update(i, true));
        lemma_count_false_step(a.drop_last(), i);
    }
}

/// Grow a strip from triangle `seed` in the given orientation: while the
/// last edge is shared with an unused triangle, the first such triangle
/// joins and its third vertex extends the strip.  Returns the strip and the
/// triangles it drew, in order.
fn grow_strip(tris: &[[u32; 3]], visited: &Vec<bool>, seed: usize, orient: u8) -> (r: (
    Vec<u32>,
    Vec<usize>,
))
    requires
        visited@.len() == tris@.len(),
        seed < tris@.len(),
        !visited@[seed as int],
    ensures
        r.0@.len() == r.1@.len() + 2,
        r.1@.len() >= 1,
        r.1@[0] == seed,
        r.1@.no_duplicates(),
        forall|i: int| 0 <= i < r.1@.len() ==> #[trigger] r.1@[i] < tris@.len() && !visited@[r.1@[i] as int],
        forall|i: int|
            0 <= i < r.1@.len() ==> tri_set(tris@[#[trigger] r.1@[i] as int]) == strip_tri(r.0@, i),
        r.0@ == grown(tris@, visited@, seed as int, orient).0,
        grown(tris@, visited@, seed as int, orient).1.len() == tris@.len(),
        forall|j: int|
            0 <= j < tris@.len() ==> (#[trigger] grown(tris@, visited@, seed as int, orient).1[j] <==> (visited@[j]
                || r.1@.contains(j as usize))),
{
    let ghost g = grown(tris@, visited@, seed as int, orient);
    let tri = tris[seed];
    let (v0, v1, v2) = if orient == 0 {
        (tri[0], tri[1], tri[2])
    } else if orient == 1 {
        (tri[1], tri[2], tri[0])
    } else {
        (tri[2], tri[0], tri[1])
    };
    let mut used = copy_flags(visited);
    used.set(seed, true);
    let mut strip: Vec<u32> = Vec::new();
    strip.push(v0);
    strip.push(v1);
    strip.push(v2);
    let mut drawn: Vec<usize> = Vec::new();
    drawn.push(seed);
    proof {
        assert(strip@ =~= oriented(tris@[seed as int], orient));
        assert(tri_set(tris@[seed as int]) =~= strip_tri(strip@, 0));
        lemma_count_false_flip(visited@, used@, seed as int);
        assert forall|j: int| 0 <= j < tris@.len() implies (#[trigger] used@[j] <==> (visited@[j] || drawn@.contains(j as usize))) by {
            if j == seed {
                assert(drawn@[0] == seed);
            }
            if drawn@.contains(j as usize) {
                assert(drawn@[0] == j as usize);
            }
        }
    }
    loop
        invariant
            visited@.len() == tris@.len(),
            used@.len() == tris@.len(),
            seed < tris@.len(),
            strip@.len() == drawn@.len() + 2,
            drawn@.len() >= 1,
            drawn@[0] == seed,
            drawn@.no_duplicates(),
            forall|j: int| 0 <= j < tris@.len() ==> (#[trigger] used@[j] <==> (visited@[j] || drawn@.contains(j as usize))),
            forall|i: int| 0 <= i < drawn@.len() ==> #[trigger] drawn@[i] < tris@.len() && !visited@[drawn@[i] as int],
            forall|i: int|
                0 <= i < drawn@.len() ==> tri_set(tris@[#[trigger] drawn@[i] as int]) == strip_tri(strip@, i),
            count_false(used@) < count_false(visited@) + 1,
            grow_spec(tris@, used@, strip@, count_false(used@)) == g,
        ensures
            g == (strip@, used@),
            forall|j: int| 0 <= j < tris@.len() ==> (#[trigger] used@[j] <==> (visited@[j] || drawn@.contains(j as usize))),
        decreases count_false(used@),
    {
        let l1 = strip[strip.len() - 2];
        let l2 = strip[strip.len() - 1];
        let nidx = match find_next(tris, &used, l1, l2) {
            Some(i) => i,
            None => {
                break;
            },
        };
        let n = tris[nidx];
        let v_new = third_vertex(&n, l1, l2);
        let ghost s0 = strip@;
        let ghost d0 = drawn@;
        let ghost u0 = used@;
        strip.push(v_new);
        drawn.push(nidx);
        used.set(nidx, true);
        proof {
            assert(!d0.contains(nidx)) by {
                if d0.contains(nidx) {
                    assert(u0[nidx as int]);
                }
            }
            assert forall|a: int, b: int| 0 <= a < drawn@.len() && 0 <= b < drawn@.len() && a != b implies drawn@[a] != drawn@[b] by {
                if a < d0.len() && b < d0.len() {
                    assert(drawn@[a] == d0[a] && drawn@[b] == d0[b]);
                } else if a == d0.len() {
                    assert(drawn@[b] == d0[b]);
                } else {
                    assert(drawn@[a] == d0[a]);
                }
            }
            assert forall|j: int| 0 <= j < tris@.len() implies (#[trigger] used@[j] <==> (visited@[j] || drawn@.contains(j as usize))) by {
                if drawn@.contains(j as usize) && j != nidx {
                    let m = choose|m: int| 0 <= m < drawn@.len() && drawn@[m] == j as usize;
                    assert(m < d0.len());
                    assert(d0[m] == j as usize);
                }
                if d0.contains(j as usize) {
                    let m = choose|m: int| 0 <= m < d0.len() && d0[m] == j as usize;
                    assert(drawn@[m] == j as usize);
                }
                if j == nidx {
                    assert(drawn@[d0.len() as int] == nidx);
                }
            }
            assert forall|i: int| 0 <= i < drawn@.len() implies tri_set(tris@[#[trigger] drawn@[i] as int]) == strip_tri(strip@, i) by {
                if i < d0.len() {
                    assert(drawn@[i] == d0[i]);
                    assert(strip@[i] == s0[i] && strip@[i + 1] == s0[i + 1] && strip@[i + 2] == s0[i + 2]);
                } else {
                    assert(strip@[i] == l1 && strip@[i + 1] == l2 && strip@[i + 2] == v_new);
                }
            }
            lemma_count_false_flip(u0, used@, nidx as int);
            assert(used@ =~= u0.update(nidx as int, true));
            lemma_count_false_step(u0, nidx as int);
            assert(strip@ =~= s0.push(third_of(tris@[nidx as int], l1, l2)));
            assert(grow_spec(tris@, u0, s0, count_false(u0)) == grow_spec(
                tris@,
                used@,
                strip@,
                (count_false(u0) - 1) as nat,
            ));
        }
    }
    (strip, drawn)
}

/// What the stripper produced: strip `k` draws the triangles `drawn[k]` in
/// order, leftover `i` is triangle `seeds[i]` (leftovers keep input order), and `owner` names, for every
/// triangle, the strip (`k`) or the leftover (`-1 - i`) that draws it.
pub open spec fn strips_ok(
    tris: Seq<[u32; 3]>,
    min_verts: int,
    strips: Seq<Seq<u32>>,
    leftover: Seq<[u32; 3]>,
    drawn: Seq<Seq<usize>>,
    seeds: Seq<usize>,
    owner: Seq<int>,
) -> bool {
    &&& strips.len() == drawn.len()
    &&& leftover.len() == seeds.len()
    &&& owner.len() == tris.len()
    &&& forall|k: int|
        0 <= k < strips.len() ==> #[trigger] strips[k].len() == drawn[k].len() + 2 && strips[k].len()
            >= min_verts && drawn[k].no_duplicates()
    &&& forall|k: int, i: int|
        0 <= k < drawn.len() && 0 <= i < drawn[k].len() ==> #[trigger] drawn[k][i] < tris.len()
            && tri_set(tris[drawn[k][i] as int]) == strip_tri(strips[k], i) && owner[drawn[k][i] as int] == k
    &&& forall|i: int|
        0 <= i < seeds.len() ==> #[trigger] seeds[i] < tris.len() && leftover[i] == tris[seeds[i] as int]
            && owner[seeds[i] as int] == -1 - i
    &&& forall|i1: int, i2: int| 0 <= i1 < i2 < seeds.len() ==> #[trigger] seeds[i1] < #[trigger] seeds[i2]
    &&& forall|j: int| 0 <= j < tris.len() ==> owned(drawn, seeds, owner, j)
}

/// Triangle `j` is drawn by the strip or leftover `owner[j]` names.
pub open spec fn owned(drawn: Seq<Seq<usize>>, seeds: Seq<usize>, owner: Seq<int>, j: int) -> bool {
    ||| (0 <= owner[j] < drawn.len() && drawn[owner[j]].contains(j as usize))
    ||| (0 <= -1 - owner[j] < seeds.len() && seeds[-1 - owner[j]] == j)
}

/// Every triangle is drawn exactly once: by one strip, at one position, or
/// as one leftover triangle.
pub proof fn law_strips_draw_each_triangle_once(
    tris: Seq<[u32; 3]>,
    min_verts: int,
    strips: Seq<Seq<u32>>,
    leftover: Seq<[u32; 3]>,
    drawn: Seq<Seq<usize>>,
    seeds: Seq<usize>,
    owner: Seq<int>,
    j: int,
)
    requires
        strips_ok(tris, min_verts, strips, leftover, drawn, seeds, owner),
        0 <= j < tris.len(),
    ensures
        forall|k1: int, i1: int, k2: int, i2: int|
            0 <= k1 < drawn.len() && 0 <= i1 < drawn[k1].len() && 0 <= k2 < drawn.len() && 0 <= i2
                < drawn[k2].len() && drawn[k1][i1] == j && drawn[k2][i2] == j ==> k1 == k2 && i1 == i2,
        forall|k: int, i: int, l: int|
            0 <= k < drawn.len() && 0 <= i < drawn[k].len() && 0 <= l < seeds.len() ==> !(drawn[k][i]
                == j && seeds[l] == j),
        forall|l1: int, l2: int|
            0 <= l1 < seeds.len() && 0 <= l2 < seeds.len() && seeds[l1] == j && seeds[l2] == j ==> l1
                == l2,
        owned(drawn, seeds, owner, j),
{
    assert forall|k1: int, i1: int, k2: int, i2: int|
        0 <= k1 < drawn.len() && 0 <= i1 < drawn[k1].len() && 0 <= k2 < drawn.len() && 0 <= i2
            < drawn[k2].len() && drawn[k1][i1] == j && drawn[k2][i2] == j implies k1 == k2 && i1 == i2 by {
        assert(owner[drawn[k1][i1] as int] == k1);
        assert(owner[drawn[k2][i2] as int] == k2);
        assert(strips[k1].len() == drawn[k1].len() + 2);
    }
    assert forall|k: int, i: int, l: int|
        0 <= k < drawn.len() && 0 <= i < drawn[k].len() && 0 <= l < seeds.len() implies !(drawn[k][i]
            == j && seeds[l] == j) by {
        assert(owner[drawn[k][i] as int] == k);
        assert(owner[seeds[l] as int] == -1 - l);
    }
    assert forall|l1: int, l2: int|
        0 <= l1 < seeds.len() && 0 <= l2 < seeds.len() && seeds[l1] == j && seeds[l2] == j implies l1
            == l2 by {
        assert(owner[seeds[l1] as int] == -1 - l1);
        assert(owner[seeds[l2] as int] == -1 - l2);
    }
}

/// Greedy stripper: every triangle not yet drawn seeds a strip grown in
/// each of its three orientations; the longest (the first on ties) is kept
/// when it has at least `min_verts` vertices, otherwise the seed becomes a
/// leftover triangle.
fn build_strips(tris: &[[u32; 3]], min_verts: usize) -> (r: (
    Vec<Vec<u32>>,
    Vec<[u32; 3]>,
    Ghost<(Seq<Seq<usize>>, Seq<usize>, Seq<int>)>,
))
    ensures
        strips_ok(tris@, min_verts as int, strip_seqs(r.0@), r.1@, r.2@.0, r.2@.1, r.2@.2),
        (strip_seqs(r.0@), r.1@) == greedy(tris@, min_verts as int, Seq::new(tris@.len(), |j: int| false), 0),
{
    let n = tris.len();
    let mut visited: Vec<bool> = vec![false; n];
    let ghost all = greedy(tris@, min_verts as int, Seq::new(tris@.len(), |j: int| false), 0);
    proof {
        assert(visited@ =~= Seq::new(tris@.len(), |j: int| false));
    }
    let mut strips: Vec<Vec<u32>> = Vec::new();
    let mut leftover: Vec<[u32; 3]> = Vec::new();
    proof {
        assert(strip_seqs(strips@) =~= Seq::<Seq<u32>>::empty());
        assert(all.0 =~= strip_seqs(strips@) + greedy(tris@, min_verts as int, visited@, 0).0);
        assert(all.1 =~= leftover@ + greedy(tris@, min_verts as int, visited@, 0).1);
    }
    let ghost mut drawn: Seq<Seq<usize>> = Seq::empty();
    let ghost mut seeds: Seq<usize> = Seq::empty();
    let ghost mut owner: Seq<int> = Seq::new(n as nat, |j: int| 0);
    let mut seed: usize = 0;
    while seed < n
        invariant
            n == tris@.len(),
            visited@.len() == n,
            owner.len() == n,
            seed <= n,
            strips@.len() == drawn.len(),
            leftover@.len() == seeds.len(),
            forall|j: int| 0 <= j < seed ==> #[trigger] visited@[j],
            forall|j: int| 0 <= j < n && #[trigger] visited@[j] ==> owned(drawn, seeds, owner, j),
            all == greedy(tris@, min_verts as int, Seq::new(tris@.len(), |j: int| false), 0),
            forall|i1: int, i2: int| 0 <= i1 < i2 < seeds.len() ==> #[trigger] seeds[i1] < #[trigger] seeds[i2],
            forall|i: int| 0 <= i < seeds.len() ==> #[trigger] seeds[i] < seed,
            all.0 == strip_seqs(strips@) + greedy(tris@, min_verts as int, visited@, seed as int).0,
            all.1 == leftover@ + greedy(tris@, min_verts as int, visited@, seed as int).1,
            forall|k: int|
                0 <= k < strips@.len() ==> #[trigger] strips@[k]@.len() == drawn[k].len() + 2
                    && strips@[k]@.len() >= min_verts && drawn[k].no_duplicates(),
            forall|k: int, i: int|
                0 <= k < drawn.len() && 0 <= i < drawn[k].len() ==> #[trigger] drawn[k][i] < n
                    && visited@[drawn[k][i] as int] && tri_set(tris@[drawn[k][i] as int])
                    == strip_tri(strips@[k]@, i) && owner[drawn[k][i] as int] == k,
            forall|i: int|
                0 <= i < seeds.len() ==> #[trigger] seeds[i] < n && visited@[seeds[i] as int]
                    && leftover@[i] == tris@[seeds[i] as int] && owner[seeds[i] as int] == -1 - i,
        decreases n - seed,
    {
        let ghost rest0 = greedy(tris@, min_verts as int, visited@, seed as int);
        let ghost ss0 = strip_seqs(strips@);
        let ghost lo_0 = leftover@;
        let ghost vis0 = visited@;
        if visited[seed] {
            proof {
                assert(rest0 == greedy(tris@, min_verts as int, visited@, seed + 1));
            }
            seed = seed + 1;
            continue;
        }
        let (s0, d0) = grow_strip(tris, &visited, seed, 0);
        let (s1, d1) = grow_strip(tris, &visited, seed, 1);
        let (s2, d2) = grow_strip(tris, &visited, seed, 2);
        let ghost g0 = grown(tris@, visited@, seed as int, 0);
        let ghost g1 = grown(tris@, visited@, seed as int, 1);
        let ghost g2 = grown(tris@, visited@, seed as int, 2);
        let mut best_s = s0;
        let mut best_d = d0;
        let ghost mut best_g = g0;
        if s1.len() > best_s.len() {
            best_s = s1;
            best_d = d1;
            proof {
                best_g = g1;
            }
        }
        if s2.len() > best_s.len() {
            best_s = s2;
            best_d = d2;
            proof {
                best_g = g2;
            }
        }
        proof {
            assert(best_g == longest(g0, g1, g2));
            assert(best_s@ == best_g.0);
            assert(best_g.1.len() == n);
            assert(forall|j: int| 0 <= j < n ==> (#[trigger] best_g.1[j] <==> (visited@[j] || best_d@.contains(j as usize))));
        }
        if best_s.len() >= min_verts {
            let k = strips.len();
            let ghost v0 = visited@;
            let ghost o0 = owner;
            let mut t: usize = 0;
            while t < best_d.len()
                invariant
                    n == tris@.len(),
                    visited@.len() == n,
                    owner.len() == n,
                    v0.len() == n,
                    o0.len() == n,
                    k == strips@.len(),
                    best_d@.no_duplicates(),
                    forall|i: int| 0 <= i < best_d@.len() ==> #[trigger] best_d@[i] < n && !v0[best_d@[i] as int],
                    t <= best_d@.len(),
                    forall|j: int| 0 <= j < n ==> (#[trigger] visited@[j] <==> (v0[j] || best_d@.take(t as int).contains(j as usize))),
                    forall|j: int| 0 <= j < n && v0[j] ==> #[trigger] owner[j] == o0[j],
                    forall|i: int| 0 <= i < t ==> #[trigger] owner[best_d@[i] as int] == k,
                decreases best_d@.len() - t,
            {
                let idx = best_d[t];
                let ghost v1 = visited@;
                visited.set(idx, true);
                proof {
                    owner = owner.update(idx as int, k as int);
                    assert forall|j: int| 0 <= j < n implies (#[trigger] visited@[j] <==> (v0[j] || best_d@.take(t + 1).contains(j as usize))) by {
                        let t1 = best_d@.take(t + 1);
                        let t0 = best_d@.take(t as int);
                        if t1.contains(j as usize) && j != idx {
                            let m = choose|m: int| 0 <= m < t1.len() && t1[m] == j as usize;
                            assert(m < t);
                            assert(t0[m] == j as usize);
                        }
                        if t0.contains(j as usize) {
                            let m = choose|m: int| 0 <= m < t0.len() && t0[m] == j as usize;
                            assert(t1[m] == j as usize);
                        }
                        if j == idx {
                            assert(t1[t as int] == idx);
                        }
                    }
                    assert forall|i: int| 0 <= i < t + 1 implies #[trigger] owner[best_d@[i] as int] == k by {
                        if i < t {
                            assert(best_d@[i] != idx);
                        }
                    }
                }
                t = t + 1;
            }
            proof {
                assert(best_d@.take(best_d@.len() as int) =~= best_d@);
                let d_new = best_d@;
                let ghost dr0 = drawn;
                drawn = drawn.push(d_new);
                assert forall|k2: int, i: int|
                    0 <= k2 < drawn.len() && 0 <= i < drawn[k2].len() implies #[trigger] drawn[k2][i] < n
                        && visited@[drawn[k2][i] as int] && tri_set(tris@[drawn[k2][i] as int])
                        == strip_tri(if k2 < k { strips@[k2]@ } else { best_s@ }, i) && owner[drawn[k2][i] as int] == k2 by {
                    if k2 < k {
                        assert(drawn[k2] == dr0[k2]);
                        assert(v0[dr0[k2][i] as int]);
                    } else {
                        assert(drawn[k2] == best_d@);
                    }
                }
                assert forall|i: int| 0 <= i < seeds.len() implies #[trigger] seeds[i] < n && visited@[seeds[i] as int]
                    && leftover@[i] == tris@[seeds[i] as int] && owner[seeds[i] as int] == -1 - i by {
                    assert(v0[seeds[i] as int]);
                }
                assert forall|j: int| 0 <= j < n && #[trigger] visited@[j] implies owned(drawn, seeds, owner, j) by {
                    if v0[j] {
                        assert(owned(dr0, seeds, o0, j));
                        if 0 <= o0[j] < dr0.len() {
                            assert(drawn[o0[j]] == dr0[o0[j]]);
                        }
                    } else {
                        assert(best_d@.contains(j as usize));
                        let m = choose|m: int| 0 <= m < best_d@.len() && best_d@[m] == j as usize;
                        assert(owner[best_d@[m] as int] == k);
                        assert(drawn[k as int] == best_d@);
                    }
                }
            }
            let ghost st0 = strips@;
            strips.push(best_s);
            proof {
                assert(visited@ =~= best_g.1);
                assert(strip_seqs(strips@) =~= ss0.push(best_s@));
                let rest = greedy(tris@, min_verts as int, best_g.1, seed + 1);
                assert(rest0 == (seq![best_g.0] + rest.0, rest.1));
                assert(all.0 =~= strip_seqs(strips@) + rest.0);
                assert(all.1 =~= leftover@ + rest.1);
                assert forall|k2: int|
                    0 <= k2 < strips@.len() implies #[trigger] strips@[k2]@.len() == drawn[k2].len() + 2
                        && strips@[k2]@.len() >= min_verts && drawn[k2].no_duplicates() by {
                    if k2 < k {
                        assert(strips@[k2] == st0[k2]);
                    }
                }
                assert forall|k2: int, i: int|
                    0 <= k2 < drawn.len() && 0 <= i < drawn[k2].len() implies #[trigger] drawn[k2][i] < n
                        && visited@[drawn[k2][i] as int] && tri_set(tris@[drawn[k2][i] as int])
                        == strip_tri(strips@[k2]@, i) && owner[drawn[k2][i] as int] == k2 by {
                    if k2 < k {
                        assert(strips@[k2] == st0[k2]);
                    }
                }
            }
        } else {
            let tri = tris[seed];
            let ghost v0 = visited@;
            visited.set(seed, true);
            proof {
                let l = seeds.len();
                owner = owner.update(seed as int, -1 - l);
                seeds = seeds.push(seed);
                assert forall|j: int| 0 <= j < n && #[trigger] visited@[j] implies owned(drawn, seeds, owner, j) by {
                    if j != seed {
                        assert(v0[j]);
                        if 0 <= -1 - owner[j] < l {
                            assert(seeds[-1 - owner[j]] == j);
                        }
                    } else {
                        assert(seeds[l as int] == seed);
                    }
                }
                assert forall|k2: int, i: int|
                    0 <= k2 < drawn.len() && 0 <= i < drawn[k2].len() implies #[trigger] drawn[k2][i] < n
                        && visited@[drawn[k2][i] as int] && tri_set(tris@[drawn[k2][i] as int])
                        == strip_tri(strips@[k2]@, i) && owner[drawn[k2][i] as int] == k2 by {
                    assert(v0[drawn[k2][i] as int]);
                }
            }
            let ghost lo0 = leftover@;
            leftover.push(tri);
            proof {
                assert(visited@ =~= vis0.update(seed as int, true));
                let rest = greedy(tris@, min_verts as int, vis0.update(seed as int, true), seed + 1);
                assert(rest0 == (rest.0, seq![tris@[seed as int]] + rest.1));
                assert(all.0 =~= strip_seqs(strips@) + rest.0);
                assert(all.1 =~= leftover@ + rest.1);
                assert forall|i: int| 0 <= i < seeds.len() implies #[trigger] seeds[i] < n && visited@[seeds[i] as int]
                    && leftover@[i] == tris@[seeds[i] as int] && owner[seeds[i] as int] == -1 - i by {
                    if i < seeds.len() - 1 {
                        assert(leftover@[i] == lo0[i]);
                        assert(v0[seeds[i] as int]);
                    }
                }
            }
        }
        seed = seed + 1;
    }
    proof {
        assert forall|j: int| 0 <= j < tris@.len() implies owned(drawn, seeds, owner, j) by {
            assert(visited@[j]);
        }
        let ss = strip_seqs(strips@);
        assert forall|k: int| 0 <= k < ss.len() implies #[trigger] ss[k].len() == drawn[k].len() + 2
            && ss[k].len() >= min_verts && drawn[k].no_duplicates() by {
            assert(ss[k] == strips@[k]@);
        }
        assert forall|k: int, i: int|
            0 <= k < drawn.len() && 0 <= i < drawn[k].len() implies #[trigger] drawn[k][i] < tris@.len()
                && tri_set(tris@[drawn[k][i] as int]) == strip_tri(ss[k], i) && owner[drawn[k][i] as int] == k by {
            assert(ss[k] == strips@[k]@);
        }
    }
    (strips, leftover, Ghost((drawn, seeds, owner)))
}

// ---------------------------------------------------------------------
// Display-list bytecode
// ---------------------------------------------------------------------

/// A strip longer than a group's 16-bit vertex count.
pub const STRIP_TOO_LONG: &'static str =
    "MeshBuilder::build: triangle-strip vertex count exceeds u16 (split into multiple POBJs)";
/// More leftover triangle corners than a group's 16-bit vertex count.
pub const LEFTOVER_TOO_LONG: &'static str =
    "MeshBuilder::build: leftover triangle count exceeds u16 (split into multiple POBJs)";

/// Primitive-group opcode for a list of separate triangles.
pub const GX_DRAW_TRIANGLES: u8 = 0x90;
/// Primitive-group opcode for a triangle strip.
pub const GX_DRAW_TRIANGLE_STRIP: u8 = 0x98;

/// One row of a POBJ's vertex attribute table.
#[derive(Clone, Copy, Debug)]
pub struct AttrSpec {
    pub name: GxAttribName,
    /// `GX_DIRECT` for the inline one-byte matrix index, `GX_INDEX16` for
    /// the buffer-backed attributes.
    pub kind: GxAttribType,
    pub comp_count: u32,
    pub comp_type: u32,
    /// Bytes per indexed entry; 0 for a direct attribute.
    pub stride: u16,
}

/// The attribute is the inline per-vertex matrix index.
pub open spec fn is_matrix_index(a: AttrSpec) -> bool {
    a.kind == GxAttribType::GX_DIRECT && a.name == GxAttribName::GX_VA_PNMTXIDX
}

/// Some attribute of the table is the inline matrix index.
pub open spec fn needs_env(attrs: Seq<AttrSpec>) -> bool {
    exists|i: int| 0 <= i < attrs.len() && is_matrix_index(#[trigger] attrs[i])
}

/// The per-vertex envelope indices as a sequence (empty when absent).
pub open spec fn env_view(env: Option<&[u32]>) -> Seq<u32> {
    match env {
        Some(e) => e@,
        None => Seq::empty(),
    }
}

/// Vertex `v` can be written: when the table has the matrix index, the
/// envelope indices cover `v` and its matrix slot fits a `u32`.
pub open spec fn env_fits(attrs: Seq<AttrSpec>, env: Option<&[u32]>, v: u32) -> bool {
    needs_env(attrs) ==> env is Some && v < env_view(env).len() && env_view(env)[v as int] * 3
        <= u32::MAX
}

/// What one attribute writes for vertex `v`.
pub open spec fn attr_vertex_bytes(a: AttrSpec, v: u32, env: Seq<u32>) -> Seq<u8> {
    match a.kind {
        GxAttribType::GX_DIRECT => if a.name == GxAttribName::GX_VA_PNMTXIDX {
            seq![(env[v as int] * 3) as u8]
        } else {
            Seq::empty()
        },
        GxAttribType::GX_INDEX16 => be16_bytes(v as u16),
        _ => Seq::empty(),
    }
}

/// What the display list writes for vertex `v`: each attribute in table
/// order.
pub open spec fn vertex_bytes(attrs: Seq<AttrSpec>, v: u32, env: Seq<u32>) -> Seq<u8>
    decreases attrs.len(),
{
    if attrs.len() == 0 {
        Seq::empty()
    } else {
        vertex_bytes(attrs.drop_last(), v, env) + attr_vertex_bytes(attrs.last(), v, env)
    }
}

/// The vertices of `verts`, written one after the other.
pub open spec fn verts_bytes(attrs: Seq<AttrSpec>, verts: Seq<u32>, env: Seq<u32>) -> Seq<u8>
    decreases verts.len(),
{
    if verts.len() == 0 {
        Seq::empty()
    } else {
        verts_bytes(attrs, verts.drop_last(), env) + vertex_bytes(attrs, verts.last(), env)
    }
}

/// One primitive group: opcode, big-endian vertex count, vertices.
pub open spec fn group_bytes(prim: u8, attrs: Seq<AttrSpec>, verts: Seq<u32>, env: Seq<u32>) -> Seq<u8> {
    seq![prim] + be16_bytes(verts.len() as u16) + verts_bytes(attrs, verts, env)
}

/// The corners of the triangles, in order.
pub open spec fn tri_verts(tris: Seq<[u32; 3]>) -> Seq<u32>
    decreases tris.len(),
{
    if tris.len() == 0 {
        Seq::empty()
    } else {
        tri_verts(tris.drop_last()) + seq![tris.last()[0], tris.last()[1], tris.last()[2]]
    }
}

/// One triangle-strip group per strip.
pub open spec fn strip_groups(attrs: Seq<AttrSpec>, strips: Seq<Seq<u32>>, env: Seq<u32>) -> Seq<u8>
    decreases strips.len(),
{
    if strips.len() == 0 {
        Seq::empty()
    } else {
        strip_groups(attrs, strips.drop_last(), env) + group_bytes(
            GX_DRAW_TRIANGLE_STRIP,
            attrs,
            strips.last(),
            env,
        )
    }
}

/// Zero bytes that bring `n` up to a multiple of 0x20.
pub open spec fn pad32_len(n: nat) -> nat {
    ((0x20 - n % 0x20) % 0x20) as nat
}

/// The stream terminator, then zeros up to a multiple of 0x20.
pub open spec fn dl_padded(b: Seq<u8>) -> Seq<u8> {
    b.push(0u8) + Seq::new(pad32_len(b.len() + 1), |i: int| 0u8)
}

/// Display list of one group of separate triangles.
pub open spec fn dl_triangles(attrs: Seq<AttrSpec>, tris: Seq<[u32; 3]>, env: Seq<u32>) -> Seq<u8> {
    dl_padded(group_bytes(GX_DRAW_TRIANGLES, attrs, tri_verts(tris), env))
}

/// Display list of the strips, then one group of the leftover triangles
/// when there are any.
pub open spec fn dl_mixed(
    attrs: Seq<AttrSpec>,
    strips: Seq<Seq<u32>>,
    leftover: Seq<[u32; 3]>,
    env: Seq<u32>,
) -> Seq<u8> {
    dl_padded(
        strip_groups(attrs, strips, env) + if leftover.len() > 0 {
            group_bytes(GX_DRAW_TRIANGLES, attrs, tri_verts(leftover), env)
        } else {
            Seq::empty()
        },
    )
}

/// Some strip has more vertices than a group's `u16` count holds.
pub open spec fn strip_overflow(strips: Seq<Seq<u32>>) -> bool {
    exists|k: int| 0 <= k < strips.len() && #[trigger] strips[k].len() > 0xFFFF
}

/// Every vertex a list of triangles names can be written.
pub open spec fn tris_fit(attrs: Seq<AttrSpec>, env: Option<&[u32]>, tris: Seq<[u32; 3]>) -> bool {
    forall|i: int, c: int| 0 <= i < tris.len() && 0 <= c < 3 ==> env_fits(attrs, env, #[trigger] tris[i][c])
}

/// Every vertex a list of strips names can be written.
pub open spec fn strips_fit(attrs: Seq<AttrSpec>, env: Option<&[u32]>, strips: Seq<Seq<u32>>) -> bool {
    forall|k: int, i: int| 0 <= k < strips.len() && 0 <= i < strips[k].len() ==> env_fits(attrs, env, #[trigger] strips[k][i])
}

proof fn lemma_tri_verts_len(tris: Seq<[u32; 3]>)
    ensures
        tri_verts(tris).len() == 3 * tris.len(),
    decreases tris.len(),
{
    if tris.len() > 0 {
        lemma_tri_verts_len(tris.drop_last());
    }
}

/// Per-vertex attribute payload: for each attribute in table order, the
/// inline matrix slot (`envelope index * 3`) or the big-endian 16-bit index.
fn write_vertex_attrs(out: &mut Vec<u8>, vert_idx: u32, attrs: &[AttrSpec], env_per_vertex: Option<&[u32]>)
    requires
        env_fits(attrs@, env_per_vertex, vert_idx),
    ensures
        final(out)@ == old(out)@ + vertex_bytes(attrs@, vert_idx, env_view(env_per_vertex)),
{
    let idx16 = vert_idx as u16;
    let ghost env = env_view(env_per_vertex);
    let mut i: usize = 0;
    while i < attrs.len()
        invariant
            i <= attrs@.len(),
            env == env_view(env_per_vertex),
            env_fits(attrs@, env_per_vertex, vert_idx),
            idx16 == vert_idx as u16,
            out@ == old(out)@ + vertex_bytes(attrs@.take(i as int), vert_idx, env),
        decreases attrs@.len() - i,
    {
        let a = attrs[i];
        let ghost before = out@;
        match a.kind {
            GxAttribType::GX_DIRECT => {
                if a.name == GxAttribName::GX_VA_PNMTXIDX {
                    proof {
                        assert(is_matrix_index(attrs@[i as int]));
                    }
                    let e = env_per_vertex.unwrap();
                    let pid = (e[vert_idx as usize] * 3) as u8;
                    out.push(pid);
                }
            },
            GxAttribType::GX_INDEX16 => {
                push_be16(out, idx16);
            },
            _ => {},
        }
        proof {
            let t1 = attrs@.take(i + 1);
            assert(t1.drop_last() =~= attrs@.take(i as int));
            assert(t1.last() == a);
            assert(out@ =~= before + attr_vertex_bytes(a, vert_idx, env));
        }
        i = i + 1;
    }
    proof {
        assert(attrs@.take(attrs@.len() as int) =~= attrs@);
    }
}

/// The strips' vertex lists.
pub open spec fn strip_seqs(strips: Seq<Vec<u32>>) -> Seq<Seq<u32>> {
    strips.map_values(|v: Vec<u32>| v@)
}

/// Write the vertices of `verts`, one after the other.
fn write_verts(out: &mut Vec<u8>, verts: &[u32], attrs: &[AttrSpec], env_per_vertex: Option<&[u32]>)
    requires
        forall|i: int| 0 <= i < verts@.len() ==> env_fits(attrs@, env_per_vertex, #[trigger] verts@[i]),
    ensures
        final(out)@ == old(out)@ + verts_bytes(attrs@, verts@, env_view(env_per_vertex)),
{
    let ghost env = env_view(env_per_vertex);
    let mut i: usize = 0;
    while i < verts.len()
        invariant
            i <= verts@.len(),
            env == env_view(env_per_vertex),
            forall|j: int| 0 <= j < verts@.len() ==> env_fits(attrs@, env_per_vertex, #[trigger] verts@[j]),
            out@ == old(out)@ + verts_bytes(attrs@, verts@.take(i as int), env),
        decreases verts@.len() - i,
    {
        let ghost before = out@;
        write_vertex_attrs(out, verts[i], attrs, env_per_vertex);
        proof {
            assert(verts@.take(i + 1).drop_last() =~= verts@.take(i as int));
            assert(out@ =~= old(out)@ + verts_bytes(attrs@, verts@.take(i + 1), env));
        }
        i = i + 1;
    }
    proof {
        assert(verts@.take(verts@.len() as int) =~= verts@);
    }
}

/// Write the corners of the triangles, in order.
fn write_tris(out: &mut Vec<u8>, tris: &[[u32; 3]], attrs: &[AttrSpec], env_per_vertex: Option<&[u32]>)
    requires
        tris_fit(attrs@, env_per_vertex, tris@),
    ensures
        final(out)@ == old(out)@ + verts_bytes(attrs@, tri_verts(tris@), env_view(env_per_vertex)),
{
    let ghost env = env_view(env_per_vertex);
    let mut i: usize = 0;
    while i < tris.len()
        invariant
            i <= tris@.len(),
            env == env_view(env_per_vertex),
            tris_fit(attrs@, env_per_vertex, tris@),
            out@ == old(out)@ + verts_bytes(attrs@, tri_verts(tris@.take(i as int)), env),
        decreases tris@.len() - i,
    {
        let t = tris[i];
        let ghost v0 = tri_verts(tris@.take(i as int));
        assert(env_fits(attrs@, env_per_vertex, tris@[i as int][0]));
        assert(env_fits(attrs@, env_per_vertex, tris@[i as int][1]));
        assert(env_fits(attrs@, env_per_vertex, tris@[i as int][2]));
        write_vertex_attrs(out, t[0], attrs, env_per_vertex);
        write_vertex_attrs(out, t[1], attrs, env_per_vertex);
        write_vertex_attrs(out, t[2], attrs, env_per_vertex);
        proof {
            let t1 = tris@.take(i + 1);
            assert(t1.drop_last() =~= tris@.take(i as int));
            let v3 = tri_verts(t1);
            let p1 = v0.push(t[0]);
            let p2 = p1.push(t[1]);
            let p3 = p2.push(t[2]);
            assert(v3 =~= p3);
            assert(p1.drop_last() =~= v0);
            assert(p2.drop_last() =~= p1);
            assert(p3.drop_last() =~= p2);
            assert(verts_bytes(attrs@, p1, env) == verts_bytes(attrs@, v0, env) + vertex_bytes(attrs@, t[0], env));
            assert(verts_bytes(attrs@, p2, env) == verts_bytes(attrs@, p1, env) + vertex_bytes(attrs@, t[1], env));
            assert(verts_bytes(attrs@, p3, env) == verts_bytes(attrs@, p2, env) + vertex_bytes(attrs@, t[2], env));
            assert(out@ =~= old(out)@ + verts_bytes(attrs@, v3, env));
        }
        i = i + 1;
    }
    proof {
        assert(tris@.take(tris@.len() as int) =~= tris@);
    }
}

/// Stream terminator, then zero padding to a multiple of 0x20 (the POBJ
/// stores the display-list size in 32-byte units).
fn finalize_dl_buffer(out: &mut Vec<u8>)
    ensures
        final(out)@ == dl_padded(old(out)@),
{
    out.push(0);
    let ghost start = out@;
    let pad = (0x20 - out.len() % 0x20) % 0x20;
    let mut k: usize = 0;
    while k < pad
        invariant
            start == old(out)@.push(0u8),
            pad == pad32_len(start.len()),
            k <= pad,
            out@ == start + Seq::new(k as nat, |i: int| 0u8),
        decreases pad - k,
    {
        out.push(0);
        proof {
            assert(out@ =~= start + Seq::new((k + 1) as nat, |i: int| 0u8));
        }
        k = k + 1;
    }
}

/// One group of separate triangles, then the terminator and padding.
fn encode_dl_triangles(triangles: &[[u32; 3]], attrs: &[AttrSpec], env_per_vertex: Option<&[u32]>) -> (out: Vec<u8>)
    requires
        triangles@.len() * 3 <= 0xFFFF,
        tris_fit(attrs@, env_per_vertex, triangles@),
    ensures
        out@ == dl_triangles(attrs@, triangles@, env_view(env_per_vertex)),
{
    let mut out: Vec<u8> = Vec::new();
    let n_dl_verts = (triangles.len() * 3) as u16;
    out.push(GX_DRAW_TRIANGLES);
    push_be16(&mut out, n_dl_verts);
    write_tris(&mut out, triangles, attrs, env_per_vertex);
    proof {
        lemma_tri_verts_len(triangles@);
        assert(out@ =~= group_bytes(
            GX_DRAW_TRIANGLES,
            attrs@,
            tri_verts(triangles@),
            env_view(env_per_vertex),
        ));
    }
    finalize_dl_buffer(&mut out);
    out
}

/// One triangle-strip group per strip, then one group of the leftover
/// triangles (if any), then the terminator and padding.  A group whose
/// vertex count does not fit 16 bits is refused.
fn encode_dl_mixed(
    strips: &[Vec<u32>],
    leftover: &[[u32; 3]],
    attrs: &[AttrSpec],
    env_per_vertex: Option<&[u32]>,
) -> (r: Result<Vec<u8>>)
    requires
        strips_fit(attrs@, env_per_vertex, strip_seqs(strips@)),
        tris_fit(attrs@, env_per_vertex, leftover@),
    ensures
        strip_overflow(strip_seqs(strips@)) ==> r == Err::<Vec<u8>, HsdError>(
            (HsdError::Malformed { offset: 0, context: STRIP_TOO_LONG }),
        ),
        !strip_overflow(strip_seqs(strips@)) && leftover@.len() * 3 > 0xFFFF ==> r == Err::<
            Vec<u8>,
            HsdError,
        >((HsdError::Malformed { offset: 0, context: LEFTOVER_TOO_LONG })),
        !strip_overflow(strip_seqs(strips@)) && leftover@.len() * 3 <= 0xFFFF ==> (r matches Ok(b)
            && b@ == dl_mixed(attrs@, strip_seqs(strips@), leftover@, env_view(env_per_vertex))),
{
    let ghost env = env_view(env_per_vertex);
    let ghost ss = strip_seqs(strips@);
    let mut out: Vec<u8> = Vec::new();
    let mut k: usize = 0;
    while k < strips.len()
        invariant
            k <= strips@.len(),
            env == env_view(env_per_vertex),
            ss == strip_seqs(strips@),
            strips_fit(attrs@, env_per_vertex, ss),
            forall|j: int| 0 <= j < k ==> #[trigger] ss[j].len() <= 0xFFFF,
            out@ == strip_groups(attrs@, ss.take(k as int), env),
        decreases strips@.len() - k,
    {
        let strip = &strips[k];
        if strip.len() > 0xFFFF {
            proof {
                assert(ss[k as int].len() > 0xFFFF);
            }
            return Err(HsdError::malformed(0, STRIP_TOO_LONG));
        }
        let ghost before = out@;
        out.push(GX_DRAW_TRIANGLE_STRIP);
        push_be16(&mut out, strip.len() as u16);
        proof {
            assert forall|i: int| 0 <= i < strip@.len() implies env_fits(attrs@, env_per_vertex, #[trigger] strip@[i]) by {
                assert(ss[k as int] == strip@);
                assert(env_fits(attrs@, env_per_vertex, ss[k as int][i]));
            }
        }
        write_verts(&mut out, strip.as_slice(), attrs, env_per_vertex);
        proof {
            let t1 = ss.take(k + 1);
            assert(t1.drop_last() =~= ss.take(k as int));
            assert(t1.last() == strip@);
            assert(out@ =~= strip_groups(attrs@, t1, env));
        }
        k = k + 1;
    }
    proof {
        assert(ss.take(ss.len() as int) =~= ss);
        assert(!strip_overflow(ss));
    }
    if leftover.len() > 0 {
        if leftover.len() > 0x5555 {
            return Err(HsdError::malformed(0, LEFTOVER_TOO_LONG));
        }
        let ghost before = out@;
        let n_dl_verts = leftover.len() * 3;
        out.push(GX_DRAW_TRIANGLES);
        push_be16(&mut out, n_dl_verts as u16);
        write_tris(&mut out, leftover, attrs, env_per_vertex);
        proof {
            lemma_tri_verts_len(leftover@);
            assert(out@ =~= before + group_bytes(GX_DRAW_TRIANGLES, attrs@, tri_verts(leftover@), env));
        }
    }
    let ghost body = out@;
    finalize_dl_buffer(&mut out);
    proof {
        assert(body =~= strip_groups(attrs@, ss, env) + if leftover@.len() > 0 {
            group_bytes(GX_DRAW_TRIANGLES, attrs@, tri_verts(leftover@), env)
        } else {
            Seq::empty()
        });
    }
    Ok(out)
}

// ---------------------------------------------------------------------
// Mesh inputs
// ---------------------------------------------------------------------

/// Shortest strip worth a group of its own: three vertices draw one
/// triangle, no cheaper than a leftover entry; four draw two.
pub const MIN_STRIP_VERTS: usize = 4;

/// Refusals of [`MeshBuilder::build`].
pub const NO_POSITIONS: &'static str = "MeshBuilder::build: no positions added";
pub const TOO_MANY_VERTICES: &'static str =
    "MeshBuilder::build: vertex count exceeds u16 (split into multiple POBJs)";
pub const NO_TRIANGLES: &'static str = "MeshBuilder::build: no triangles added";
pub const NORMAL_COUNT: &'static str = "MeshBuilder::build: normal count != position count";
pub const COLOR_COUNT: &'static str = "MeshBuilder::build: color count != position count";
pub const UV_COUNT: &'static str = "MeshBuilder::build: uv count != position count";
pub const TRIANGLE_INDEX: &'static str = "MeshBuilder::build: triangle index out of range";
pub const ENVELOPE_INDEX_COUNT: &'static str =
    "MeshBuilder::build: envelope_indices count != position count";
pub const ENVELOPE_INDEX: &'static str = "MeshBuilder::build: envelope index out of range";
pub const TOO_MANY_ENVELOPES: &'static str =
    "MeshBuilder::build: envelope count exceeds 85 (PNMTXIDX overflow — split into multiple POBJs)";
pub const INDICES_WITHOUT_ENVELOPES: &'static str =
    "MeshBuilder::build: envelope_indices added without any envelopes";
pub const TOO_MANY_TRIANGLES: &'static str =
    "MeshBuilder::build: triangle count exceeds GX primitive group limit (split into multiple POBJs)";
pub const EMPTY_ENVELOPE: &'static str = "build_envelope: envelope must have at least one entry";

/// What a [`MeshBuilder`] holds.  Positions, normals, UVs and envelope
/// weights are IEEE-754 `f32` bit patterns.
pub struct MeshModel {
    pub positions: Seq<[u32; 3]>,
    pub normals: Seq<[u32; 3]>,
    pub colors: Seq<[u8; 4]>,
    pub uvs: Seq<[u32; 2]>,
    pub triangles: Seq<[u32; 3]>,
    pub cull_back: bool,
    pub cull_front: bool,
    pub use_triangle_strips: bool,
    /// One matrix slot's worth of `(joint, weight)` influences each.
    pub envelopes: Seq<Seq<(JObj, u32)>>,
    /// Per-vertex envelope index, parallel to `positions`.
    pub envelope_indices: Seq<u32>,
}

/// CPU-side mesh inputs: push positions / normals / colors / uvs /
/// triangles, then [`build`](MeshBuilder::build) a `PObj`.
#[derive(Debug, Clone)]
pub struct MeshBuilder {
    positions: Vec<[u32; 3]>,
    normals: Vec<[u32; 3]>,
    colors: Vec<[u8; 4]>,
    uvs: Vec<[u32; 2]>,
    triangles: Vec<[u32; 3]>,
    cull_back: bool,
    cull_front: bool,
    /// Greedy triangle strips (default) or one group of separate triangles.
    use_triangle_strips: bool,
    /// Envelope rigging: empty for a statically bound mesh.
    envelopes: Vec<Vec<(JObj, u32)>>,
    envelope_indices: Vec<u32>,
}

impl View for MeshBuilder {
    type V = MeshModel;

    closed spec fn view(&self) -> MeshModel {
        MeshModel {
            positions: self.positions@,
            normals: self.normals@,
            colors: self.colors@,
            uvs: self.uvs@,
            triangles: self.triangles@,
            cull_back: self.cull_back,
            cull_front: self.cull_front,
            use_triangle_strips: self.use_triangle_strips,
            envelopes: self.envelopes@.map_values(|e: Vec<(JObj, u32)>| e@),
            envelope_indices: self.envelope_indices@,
        }
    }
}

/// The model of a fresh builder: nothing pushed, no culling, strips on.
pub open spec fn empty_mesh() -> MeshModel {
    MeshModel {
        positions: Seq::empty(),
        normals: Seq::empty(),
        colors: Seq::empty(),
        uvs: Seq::empty(),
        triangles: Seq::empty(),
        cull_back: false,
        cull_front: false,
        use_triangle_strips: true,
        envelopes: Seq::empty(),
        envelope_indices: Seq::empty(),
    }
}

impl Default for MeshBuilder {
    fn default() -> (b: Self)
        ensures
            b@ == empty_mesh(),
    {
        let b = MeshBuilder {
            positions: Vec::new(),
            normals: Vec::new(),
            colors: Vec::new(),
            uvs: Vec::new(),
            triangles: Vec::new(),
            cull_back: false,
            cull_front: false,
            use_triangle_strips: true,
            envelopes: Vec::new(),
            envelope_indices: Vec::new(),
        };
        proof {
            assert(b@.envelopes =~= Seq::<Seq<(JObj, u32)>>::empty());
        }
        b
    }
}

impl MeshBuilder {
    pub fn new() -> (b: Self)
        ensures
            b@ == empty_mesh(),
    {
        Self::default()
    }

    /// Push a position (`f32` bit patterns).
    pub fn add_position(&mut self, x: u32, y: u32, z: u32)
        ensures
            final(self)@ == (MeshModel { positions: old(self)@.positions.push([x, y, z]), ..old(self)@ }),
    {
        self.positions.push([x, y, z]);
    }

    /// Push a normal (`f32` bit patterns).
    pub fn add_normal(&mut self, x: u32, y: u32, z: u32)
        ensures
            final(self)@ == (MeshModel { normals: old(self)@.normals.push([x, y, z]), ..old(self)@ }),
    {
        self.normals.push([x, y, z]);
    }

    /// Push an RGBA8 color, stored verbatim in the per-vertex buffer.
    pub fn add_color(&mut self, r: u8, g: u8, b: u8, a: u8)
        ensures
            final(self)@ == (MeshModel { colors: old(self)@.colors.push([r, g, b, a]), ..old(self)@ }),
    {
        self.colors.push([r, g, b, a]);
    }

    /// Push a texture coordinate (`f32` bit patterns).
    pub fn add_uv(&mut self, u: u32, v: u32)
        ensures
            final(self)@ == (MeshModel { uvs: old(self)@.uvs.push([u, v]), ..old(self)@ }),
    {
        self.uvs.push([u, v]);
    }

    /// Push a triangle: indices into the position list, counter-clockwise
    /// when seen from outside.
    pub fn add_triangle(&mut self, i0: u32, i1: u32, i2: u32)
        ensures
            final(self)@ == (MeshModel {
                triangles: old(self)@.triangles.push([i0, i1, i2]),
                ..old(self)@
            }),
    {
        self.triangles.push([i0, i1, i2]);
    }

    /// Record back-face culling.  Deprecated: the POBJ flag bit it once
    /// set collides with the POBJ type mask, so the built POBJ's flags do
    /// not carry it; cull mode belongs on the PE descriptor.
    pub fn set_cull_back(&mut self, on: bool)
        ensures
            final(self)@ == (MeshModel { cull_back: on, ..old(self)@ }),
    {
        self.cull_back = on;
    }

    /// Record front-face culling.  Deprecated, as [`set_cull_back`](Self::set_cull_back):
    /// the built POBJ's flags do not carry it.
    pub fn set_cull_front(&mut self, on: bool)
        ensures
            final(self)@ == (MeshModel { cull_front: on, ..old(self)@ }),
    {
        self.cull_front = on;
    }

    /// Greedy triangle strips (on by default) or one group of separate
    /// triangles.
    pub fn set_use_triangle_strips(&mut self, on: bool)
        ensures
            final(self)@ == (MeshModel { use_triangle_strips: on, ..old(self)@ }),
    {
        self.use_triangle_strips = on;
    }

    /// Add an envelope (one matrix slot's worth of `(joint, weight)`
    /// influences, weights as `f32` bit patterns) and return its index;
    /// vertex matrix slot `index * 3` then blends these joints.
    pub fn add_envelope(&mut self, weights: Vec<(JObj, u32)>) -> (idx: u32)
        ensures
            final(self)@ == (MeshModel { envelopes: old(self)@.envelopes.push(weights@), ..old(self)@ }),
            idx == old(self)@.envelopes.len() as u32,
    {
        let ghost w = weights@;
        self.envelopes.push(weights);
        proof {
            assert(self@.envelopes =~= old(self)@.envelopes.push(w));
        }
        (self.envelopes.len() - 1) as u32
    }

    /// Push the envelope index of the next vertex (parallel to positions).
    pub fn add_envelope_index(&mut self, env_idx: u32)
        ensures
            final(self)@ == (MeshModel {
                envelope_indices: old(self)@.envelope_indices.push(env_idx),
                ..old(self)@
            }),
    {
        self.envelope_indices.push(env_idx);
    }

    pub fn envelope_count(&self) -> (n: usize)
        ensures
            n == self@.envelopes.len(),
    {
        self.envelopes.len()
    }

    /// How many positions have been pushed.
    pub fn vertex_count(&self) -> (n: usize)
        ensures
            n == self@.positions.len(),
    {
        self.positions.len()
    }

    pub fn triangle_count(&self) -> (n: usize)
        ensures
            n == self@.triangles.len(),
    {
        self.triangles.len()
    }
}

// ---------------------------------------------------------------------
// What `build` produces
// ---------------------------------------------------------------------

/// First refusal of the input checks, in the order they are made.
pub open spec fn validation_error(m: MeshModel) -> Option<&'static str> {
    let n = m.positions.len();
    if n == 0 {
        Some(NO_POSITIONS)
    } else if n > 0xFFFF {
        Some(TOO_MANY_VERTICES)
    } else if m.triangles.len() == 0 {
        Some(NO_TRIANGLES)
    } else if m.normals.len() != 0 && m.normals.len() != n {
        Some(NORMAL_COUNT)
    } else if m.colors.len() != 0 && m.colors.len() != n {
        Some(COLOR_COUNT)
    } else if m.uvs.len() != 0 && m.uvs.len() != n {
        Some(UV_COUNT)
    } else if exists|i: int, c: int|
        0 <= i < m.triangles.len() && 0 <= c < 3 && #[trigger] m.triangles[i][c] >= n {
        Some(TRIANGLE_INDEX)
    } else if m.envelopes.len() != 0 {
        if m.envelope_indices.len() != n {
            Some(ENVELOPE_INDEX_COUNT)
        } else if exists|i: int|
            0 <= i < m.envelope_indices.len() && #[trigger] m.envelope_indices[i] >= m.envelopes.len() {
            Some(ENVELOPE_INDEX)
        } else if m.envelopes.len() >= 86 {
            Some(TOO_MANY_ENVELOPES)
        } else {
            None
        }
    } else if m.envelope_indices.len() != 0 {
        Some(INDICES_WITHOUT_ENVELOPES)
    } else {
        None
    }
}

/// The count checks that come before the index checks pass.
pub open spec fn counts_ok(m: MeshModel) -> bool {
    let n = m.positions.len();
    &&& 0 < n <= 0xFFFF
    &&& m.triangles.len() != 0
    &&& (m.normals.len() == 0 || m.normals.len() == n)
    &&& (m.colors.len() == 0 || m.colors.len() == n)
    &&& (m.uvs.len() == 0 || m.uvs.len() == n)
}

/// Some envelope has no influence.
pub open spec fn has_empty_envelope(m: MeshModel) -> bool {
    exists|i: int| 0 <= i < m.envelopes.len() && #[trigger] m.envelopes[i].len() == 0
}

pub open spec fn pnmtx_attr() -> AttrSpec {
    AttrSpec {
        name: GxAttribName::GX_VA_PNMTXIDX,
        kind: GxAttribType::GX_DIRECT,
        comp_count: 0,
        comp_type: 0,
        stride: 0,
    }
}

pub open spec fn pos_attr() -> AttrSpec {
    AttrSpec { name: GxAttribName::GX_VA_POS, kind: GxAttribType::GX_INDEX16, comp_count: 1, comp_type: 4, stride: 12 }
}

pub open spec fn nrm_attr() -> AttrSpec {
    AttrSpec { name: GxAttribName::GX_VA_NRM, kind: GxAttribType::GX_INDEX16, comp_count: 0, comp_type: 4, stride: 12 }
}

pub open spec fn clr_attr() -> AttrSpec {
    AttrSpec { name: GxAttribName::GX_VA_CLR0, kind: GxAttribType::GX_INDEX16, comp_count: 1, comp_type: 5, stride: 4 }
}

pub open spec fn tex_attr() -> AttrSpec {
    AttrSpec { name: GxAttribName::GX_VA_TEX0, kind: GxAttribType::GX_INDEX16, comp_count: 1, comp_type: 4, stride: 8 }
}

/// The attribute table: the matrix index first when envelopes are in use,
/// then POS (`f32`×3), NRM (`f32`×3), CLR0 (RGBA8), TEX0 (`f32`×2) for
/// those that were given.
pub open spec fn attr_specs(m: MeshModel) -> Seq<AttrSpec> {
    let a0: Seq<AttrSpec> = if m.envelopes.len() != 0 { seq![pnmtx_attr()] } else { Seq::empty() };
    let a1 = a0.push(pos_attr());
    let a2 = if m.normals.len() != 0 { a1.push(nrm_attr()) } else { a1 };
    let a3 = if m.colors.len() != 0 { a2.push(clr_attr()) } else { a2 };
    if m.uvs.len() != 0 { a3.push(tex_attr()) } else { a3 }
}

/// Big-endian bytes of three-component rows.
pub open spec fn vec3_bytes(s: Seq<[u32; 3]>) -> Seq<u8>
    decreases s.len(),
{
    if s.len() == 0 {
        Seq::empty()
    } else {
        vec3_bytes(s.drop_last()) + be32_bytes(s.last()[0]) + be32_bytes(s.last()[1]) + be32_bytes(
            s.last()[2],
        )
    }
}

/// Big-endian bytes of two-component rows.
pub open spec fn vec2_bytes(s: Seq<[u32; 2]>) -> Seq<u8>
    decreases s.len(),
{
    if s.len() == 0 {
        Seq::empty()
    } else {
        vec2_bytes(s.drop_last()) + be32_bytes(s.last()[0]) + be32_bytes(s.last()[1])
    }
}

/// RGBA8 colors, verbatim.
pub open spec fn rgba_bytes(s: Seq<[u8; 4]>) -> Seq<u8>
    decreases s.len(),
{
    if s.len() == 0 {
        Seq::empty()
    } else {
        rgba_bytes(s.drop_last()) + s.last()@
    }
}

/// The buffer behind each attribute of [`attr_specs`] (none for the
/// matrix index).
pub open spec fn attr_payloads(m: MeshModel) -> Seq<Option<Seq<u8>>> {
    let p0: Seq<Option<Seq<u8>>> = if m.envelopes.len() != 0 { seq![None] } else { Seq::empty() };
    let p1 = p0.push(Some(vec3_bytes(m.positions)));
    let p2 = if m.normals.len() != 0 { p1.push(Some(vec3_bytes(m.normals))) } else { p1 };
    let p3 = if m.colors.len() != 0 { p2.push(Some(rgba_bytes(m.colors))) } else { p2 };
    if m.uvs.len() != 0 { p3.push(Some(vec2_bytes(m.uvs))) } else { p3 }
}

/// One 0x18-byte row of the attribute table; the buffer reference sits
/// at 0x14.
pub open spec fn attr_row_bytes(a: AttrSpec) -> Seq<u8> {
    be32_bytes(a.name.raw_of()) + be32_bytes(a.kind.raw_of()) + be32_bytes(a.comp_count) + be32_bytes(
        a.comp_type,
    ) + seq![0u8, 0u8] + be16_bytes(a.stride) + Seq::new(4, |i: int| 0u8)
}

/// The rows of an attribute table, without the terminator.
pub open spec fn attr_rows_bytes(attrs: Seq<AttrSpec>) -> Seq<u8>
    decreases attrs.len(),
{
    if attrs.len() == 0 {
        Seq::empty()
    } else {
        attr_rows_bytes(attrs.drop_last()) + attr_row_bytes(attrs.last())
    }
}

/// The attribute table: its rows, then a `GX_VA_NULL` row.
pub open spec fn attr_table_bytes(attrs: Seq<AttrSpec>) -> Seq<u8> {
    attr_rows_bytes(attrs) + be32_bytes(GxAttribName::GX_VA_NULL.raw_of()) + Seq::new(
        0x14,
        |i: int| 0u8,
    )
}

/// The per-vertex envelope indices the display list reads (none without
/// envelopes).
pub open spec fn dl_env(m: MeshModel) -> Seq<u32> {
    if m.envelopes.len() != 0 { m.envelope_indices } else { Seq::empty() }
}

/// The strips and leftover triangles are the greedy stripper's, and draw
/// every triangle of `m` once.
pub open spec fn strip_plan(m: MeshModel, strips: Seq<Seq<u32>>, leftover: Seq<[u32; 3]>) -> bool {
    m.use_triangle_strips ==> (exists|drawn: Seq<Seq<usize>>, seeds: Seq<usize>, owner: Seq<int>|
        strips_ok(m.triangles, MIN_STRIP_VERTS as int, strips, leftover, drawn, seeds, owner)) && (strips, leftover)
        == greedy(m.triangles, MIN_STRIP_VERTS as int, Seq::new(m.triangles.len(), |j: int| false), 0)
}

/// The display list, or the refusal of a group too long for its count,
/// given the strips (used only with strips on).
pub open spec fn dl_outcome(m: MeshModel, strips: Seq<Seq<u32>>, leftover: Seq<[u32; 3]>) -> core::result::Result<Seq<u8>, &'static str> {
    let attrs = attr_specs(m);
    if m.use_triangle_strips {
        if strip_overflow(strips) {
            Err(STRIP_TOO_LONG)
        } else if leftover.len() * 3 > 0xFFFF {
            Err(LEFTOVER_TOO_LONG)
        } else {
            Ok(dl_mixed(attrs, strips, leftover, dl_env(m)))
        }
    } else if m.triangles.len() * 3 > 0xFFFF {
        Err(TOO_MANY_TRIANGLES)
    } else {
        Ok(dl_triangles(attrs, m.triangles, dl_env(m)))
    }
}

/// `POBJ_FLAG` bits of the produced POBJ: `ENVELOPE` when envelopes are in
/// use.  The cull settings leave the flags alone (their historical bits
/// collide with the POBJ type mask).
pub open spec fn pobj_flags(m: MeshModel) -> u16 {
    if m.envelopes.len() != 0 { PObjFlag::ENVELOPE } else { 0 }
}

/// The 0x18 POBJ bytes: flags at 0x0C, display-list size in 32-byte units
/// at 0x0E, zeros elsewhere (the references live in the reference map).
pub open spec fn pobj_bytes(flags: u16, dl_units: i16) -> Seq<u8> {
    splice(
        splice(Seq::new(0x18, |i: int| 0u8), 0x0C, be16_bytes(flags)),
        0x0E,
        be16_bytes(u16_of(dl_units)),
    )
}

/// The `(joint reference slot, weight)` rows of an envelope, 8 bytes each.
pub open spec fn envelope_rows_bytes(ws: Seq<(JObj, u32)>) -> Seq<u8>
    decreases ws.len(),
{
    if ws.len() == 0 {
        Seq::empty()
    } else {
        envelope_rows_bytes(ws.drop_last()) + Seq::new(4, |i: int| 0u8) + be32_bytes(ws.last().1)
    }
}

/// One envelope: its rows, then an all-zero terminator row.
pub open spec fn envelope_bytes(ws: Seq<(JObj, u32)>) -> Seq<u8> {
    envelope_rows_bytes(ws) + Seq::new(8, |i: int| 0u8)
}

/// Reference map `refs` holds `t` at `i * 8`.
pub open spec fn ref_at_8(refs: Map<u32, StructRef>, i: int, t: StructRef) -> bool {
    refs.contains_key((i * 8) as u32) && refs[(i * 8) as u32] == t
}

/// Reference map `refs` holds exactly `targets[i]` at `i * 8`.
pub open spec fn refs_every_8(refs: Map<u32, StructRef>, targets: Seq<StructRef>) -> bool {
    &&& forall|i: int| 0 <= i < targets.len() ==> ref_at_8(refs, i, #[trigger] targets[i])
    &&& forall|k: u32| #[trigger] refs.contains_key(k) ==> k % 8 == 0 && k / 8 < targets.len()
}

/// Slot `r` is a buffer holding `bytes`, 0x20-aligned at write time.
pub open spec fn buffer_at(pool: StructPool, r: StructRef, bytes: Seq<u8>) -> bool {
    &&& r < pool.len()
    &&& pool.at(r as int).bytes() == bytes
    &&& pool.at(r as int).refs() == Map::<u32, StructRef>::empty()
    &&& pool.at(r as int).buffer_aligned()
}

/// The table row at `off` of reference map `refs` references a buffer
/// holding `pay`, or nothing when `pay` is `None`.
pub open spec fn attr_row_ok(pool: StructPool, refs: Map<u32, StructRef>, off: u32, pay: Option<Seq<u8>>) -> bool {
    match pay {
        Some(b) => refs.contains_key(off) && buffer_at(pool, refs[off], b),
        None => !refs.contains_key(off),
    }
}

/// Reference map `refs` holds, for row `i` of a table, a buffer holding
/// `pays[i]` at `i * 0x18 + 0x14` (nothing for a `None`), and nothing else.
pub open spec fn attr_refs_ok(pool: StructPool, refs: Map<u32, StructRef>, pays: Seq<Option<Seq<u8>>>) -> bool {
    &&& forall|i: int| 0 <= i < pays.len() ==> attr_row_ok(pool, refs, (i * 0x18 + 0x14) as u32, #[trigger] pays[i])
    &&& forall|k: u32| #[trigger] refs.contains_key(k) ==> k >= 0x14 && (k - 0x14) % 0x18 == 0 && (k - 0x14) / 0x18 < pays.len()
}

/// Slot `r` is the attribute table of `m`, each buffer-backed row
/// referencing its buffer at row offset 0x14.
pub open spec fn attr_table_at(pool: StructPool, r: StructRef, m: MeshModel) -> bool {
    &&& r < pool.len()
    &&& pool.at(r as int).bytes() == attr_table_bytes(attr_specs(m))
    &&& attr_refs_ok(pool, pool.at(r as int).refs(), attr_payloads(m))
}

/// Slot `r` is one envelope of influences `ws`.
pub open spec fn envelope_at(pool: StructPool, r: StructRef, ws: Seq<(JObj, u32)>) -> bool {
    &&& r < pool.len()
    &&& pool.at(r as int).bytes() == envelope_bytes(ws)
    &&& refs_every_8(pool.at(r as int).refs(), ws.map_values(|w: (JObj, u32)| w.0.0))
}

/// Slot `r` is the null-terminated array of the envelopes `envs`.
pub open spec fn envelope_array_at(pool: StructPool, r: StructRef, envs: Seq<Seq<(JObj, u32)>>) -> bool {
    &&& r < pool.len()
    &&& pool.at(r as int).bytes() == Seq::new(((envs.len() + 1) * 4) as nat, |i: int| 0u8)
    &&& forall|k: u32| #[trigger] pool.at(r as int).refs().contains_key(k) ==> k % 4 == 0 && k / 4 < envs.len()
    &&& forall|i: int| 0 <= i < envs.len() ==> envelope_slot_ok(pool, pool.at(r as int).refs(), i, #[trigger] envs[i])
}

/// Reference map `refs` holds, at `i * 4`, one envelope of influences `ws`.
pub open spec fn envelope_slot_ok(pool: StructPool, refs: Map<u32, StructRef>, i: int, ws: Seq<(JObj, u32)>) -> bool {
    refs.contains_key((i * 4) as u32) && envelope_at(pool, refs[(i * 4) as u32], ws)
}

/// `pool` is `pool0` plus the structs of a POBJ at `p` built from `m` with
/// display list `dl`.
pub open spec fn pobj_built(pool0: StructPool, pool: StructPool, p: StructRef, m: MeshModel, dl: Seq<u8>) -> bool {
    let s = pool.at(p as int);
    &&& pool.wf()
    &&& pool0.len() <= p < pool.len()
    &&& forall|q: int| 0 <= q < pool0.len() ==> #[trigger] pool.at(q) == pool0.at(q)
    &&& s.bytes() == pobj_bytes(pobj_flags(m), (dl.len() / 32) as i16)
    &&& s.refs().dom() == (if m.envelopes.len() != 0 {
        set![0x08u32, 0x10u32, 0x14u32]
    } else {
        set![0x08u32, 0x10u32]
    })
    &&& attr_table_at(pool, s.refs()[0x08], m)
    &&& buffer_at(pool, s.refs()[0x10], dl)
    &&& m.envelopes.len() != 0 ==> envelope_array_at(pool, s.refs()[0x14], m.envelopes)
}

/// Every envelope joint names a slot below `n`, and no envelope is too
/// long for 32-bit row offsets.
pub open spec fn envelopes_fit(m: MeshModel, n: nat) -> bool {
    forall|i: int| 0 <= i < m.envelopes.len() ==> #[trigger] m.envelopes[i].len() < 0x1000_0000
        && forall|j: int| 0 <= j < m.envelopes[i].len() ==> (#[trigger] m.envelopes[i][j]).0.0 < n
}

// ---------------------------------------------------------------------
// Building the structs
// ---------------------------------------------------------------------

/// `pool` is `pool0` with zero or more slots added.
pub open spec fn grows(pool0: StructPool, pool: StructPool) -> bool {
    &&& pool.wf()
    &&& pool0.len() <= pool.len()
    &&& forall|q: int| 0 <= q < pool0.len() ==> #[trigger] pool.at(q) == pool0.at(q)
}

proof fn lemma_grows_trans(p0: StructPool, p1: StructPool, p2: StructPool)
    requires
        grows(p0, p1),
        grows(p1, p2),
    ensures
        grows(p0, p2),
{
    assert forall|q: int| 0 <= q < p0.len() implies #[trigger] p2.at(q) == p0.at(q) by {
        assert(p2.at(q) == p1.at(q));
    }
}

proof fn lemma_buffer_kept(p0: StructPool, p1: StructPool, r: StructRef, b: Seq<u8>)
    requires
        buffer_at(p0, r, b),
        grows(p0, p1),
    ensures
        buffer_at(p1, r, b),
{
    assert(p1.at(r as int) == p0.at(r as int));
}

proof fn lemma_attr_refs_kept(p0: StructPool, p1: StructPool, refs: Map<u32, StructRef>, pays: Seq<Option<Seq<u8>>>)
    requires
        attr_refs_ok(p0, refs, pays),
        grows(p0, p1),
    ensures
        attr_refs_ok(p1, refs, pays),
{
    assert forall|i: int| 0 <= i < pays.len() implies attr_row_ok(p1, refs, (i * 0x18 + 0x14) as u32, #[trigger] pays[i]) by {
        assert(attr_row_ok(p0, refs, (i * 0x18 + 0x14) as u32, pays[i]));
        if let Some(b) = pays[i] {
            lemma_buffer_kept(p0, p1, refs[(i * 0x18 + 0x14) as u32], b);
        }
    }
}

proof fn lemma_attr_table_kept(p0: StructPool, p1: StructPool, r: StructRef, m: MeshModel)
    requires
        attr_table_at(p0, r, m),
        grows(p0, p1),
    ensures
        attr_table_at(p1, r, m),
{
    assert(p1.at(r as int) == p0.at(r as int));
    lemma_attr_refs_kept(p0, p1, p0.at(r as int).refs(), attr_payloads(m));
}

proof fn lemma_envelope_kept(p0: StructPool, p1: StructPool, r: StructRef, ws: Seq<(JObj, u32)>)
    requires
        envelope_at(p0, r, ws),
        grows(p0, p1),
    ensures
        envelope_at(p1, r, ws),
{
    assert(p1.at(r as int) == p0.at(r as int));
}

proof fn lemma_envelope_array_kept(p0: StructPool, p1: StructPool, r: StructRef, envs: Seq<Seq<(JObj, u32)>>)
    requires
        envelope_array_at(p0, r, envs),
        grows(p0, p1),
    ensures
        envelope_array_at(p1, r, envs),
{
    assert(p1.at(r as int) == p0.at(r as int));
    let refs = p0.at(r as int).refs();
    assert forall|i: int| 0 <= i < envs.len() implies envelope_slot_ok(p1, refs, i, #[trigger] envs[i]) by {
        assert(envelope_slot_ok(p0, refs, i, envs[i]));
        lemma_envelope_kept(p0, p1, refs[(i * 4) as u32], envs[i]);
    }
}

/// Big-endian bytes of three-component `f32` rows.
fn encode_f32_buffer(items: &[[u32; 3]]) -> (out: Vec<u8>)
    ensures
        out@ == vec3_bytes(items@),
{
    let mut out: Vec<u8> = Vec::new();
    let mut i: usize = 0;
    while i < items.len()
        invariant
            i <= items@.len(),
            out@ == vec3_bytes(items@.take(i as int)),
        decreases items@.len() - i,
    {
        let it = items[i];
        push_be32(&mut out, it[0]);
        push_be32(&mut out, it[1]);
        push_be32(&mut out, it[2]);
        proof {
            assert(items@.take(i + 1).drop_last() =~= items@.take(i as int));
        }
        i = i + 1;
    }
    proof {
        assert(items@.take(items@.len() as int) =~= items@);
    }
    out
}

/// Big-endian bytes of two-component `f32` rows.
fn encode_f32x2_buffer(items: &[[u32; 2]]) -> (out: Vec<u8>)
    ensures
        out@ == vec2_bytes(items@),
{
    let mut out: Vec<u8> = Vec::new();
    let mut i: usize = 0;
    while i < items.len()
        invariant
            i <= items@.len(),
            out@ == vec2_bytes(items@.take(i as int)),
        decreases items@.len() - i,
    {
        let it = items[i];
        push_be32(&mut out, it[0]);
        push_be32(&mut out, it[1]);
        proof {
            assert(items@.take(i + 1).drop_last() =~= items@.take(i as int));
        }
        i = i + 1;
    }
    proof {
        assert(items@.take(items@.len() as int) =~= items@);
    }
    out
}

/// The colour buffer holds color `i` at bytes `4 i .. 4 i + 4`, channel by
/// channel in the order given (r, g, b, a).
pub proof fn law_rgba_bytes_in_order(s: Seq<[u8; 4]>)
    ensures
        rgba_bytes(s).len() == 4 * s.len(),
        forall|i: int, c: int| 0 <= i < s.len() && 0 <= c < 4 ==> #[trigger] rgba_bytes(s)[4 * i + c] == s[i][c],
    decreases s.len(),
{
    if s.len() > 0 {
        let p = s.drop_last();
        law_rgba_bytes_in_order(p);
        assert forall|i: int, c: int| 0 <= i < s.len() && 0 <= c < 4 implies #[trigger] rgba_bytes(s)[4 * i + c]
            == s[i][c] by {
            if i < p.len() {
                assert(p[i] == s[i]);
                assert(rgba_bytes(s)[4 * i + c] == rgba_bytes(p)[4 * i + c]);
            } else {
                assert(rgba_bytes(s)[4 * i + c] == s.last()@[c]);
            }
        }
    }
}

/// RGBA8 colors, verbatim.
fn encode_rgba_buffer(items: &[[u8; 4]]) -> (out: Vec<u8>)
    ensures
        out@ == rgba_bytes(items@),
        out@.len() == 4 * items@.len(),
        forall|i: int, c: int| 0 <= i < items@.len() && 0 <= c < 4 ==> #[trigger] out@[4 * i + c] == items@[i][c],
{
    let mut out: Vec<u8> = Vec::new();
    let mut i: usize = 0;
    while i < items.len()
        invariant
            i <= items@.len(),
            out@ == rgba_bytes(items@.take(i as int)),
        decreases items@.len() - i,
    {
        let c = items[i];
        out.push(c[0]);
        out.push(c[1]);
        out.push(c[2]);
        out.push(c[3]);
        proof {
            assert(items@.take(i + 1).drop_last() =~= items@.take(i as int));
            assert(out@ =~= rgba_bytes(items@.take(i as int)) + c@);
        }
        i = i + 1;
    }
    proof {
        assert(items@.take(items@.len() as int) =~= items@);
        law_rgba_bytes_in_order(items@);
    }
    out
}

/// Add a buffer struct holding `bytes` (0x20-aligned and deduplicated at
/// write time).
fn make_buffer_struct(bytes: Vec<u8>, pool: &mut StructPool) -> (r: StructRef)
    requires
        old(pool).wf(),
    ensures
        grows(*old(pool), *final(pool)),
        final(pool).len() == old(pool).len() + 1,
        r == old(pool).len(),
        buffer_at(*final(pool), r, bytes@),
{
    let mut s = HsdStruct::from_bytes(bytes);
    s.set_is_buffer_aligned(true);
    s.into_ref(pool)
}

/// Buffer slot `b` holds `pay` (both absent for the matrix index).
pub open spec fn buf_matches(pool: StructPool, b: Option<StructRef>, pay: Option<Seq<u8>>) -> bool {
    match (b, pay) {
        (Some(r), Some(x)) => buffer_at(pool, r, x),
        (None, None) => true,
        _ => false,
    }
}

/// Row `i` of a table references `b` at `i * 0x18 + 0x14` (nothing for
/// `None`).
pub open spec fn table_row_ref(refs: Map<u32, StructRef>, i: int, b: Option<StructRef>) -> bool {
    match b {
        Some(q) => refs.contains_key((i * 0x18 + 0x14) as u32) && refs[(i * 0x18 + 0x14) as u32] == q,
        None => !refs.contains_key((i * 0x18 + 0x14) as u32),
    }
}

/// The table's references are exactly the row buffers `bufs`.
pub open spec fn table_refs_ok(refs: Map<u32, StructRef>, bufs: Seq<Option<StructRef>>) -> bool {
    &&& forall|i: int| 0 <= i < bufs.len() ==> table_row_ref(refs, i, #[trigger] bufs[i])
    &&& forall|k: u32| #[trigger] refs.contains_key(k) ==> k >= 0x14 && (k - 0x14) % 0x18 == 0 && (k - 0x14) / 0x18 < bufs.len()
}

proof fn lemma_table_refs(pool: StructPool, refs: Map<u32, StructRef>, bufs: Seq<Option<StructRef>>, pays: Seq<Option<Seq<u8>>>)
    requires
        table_refs_ok(refs, bufs),
        bufs.len() == pays.len(),
        forall|i: int| 0 <= i < bufs.len() ==> buf_matches(pool, #[trigger] bufs[i], pays[i]),
    ensures
        attr_refs_ok(pool, refs, pays),
{
    assert forall|i: int| 0 <= i < pays.len() implies attr_row_ok(pool, refs, (i * 0x18 + 0x14) as u32, #[trigger] pays[i]) by {
        assert(table_row_ref(refs, i, bufs[i]));
        assert(buf_matches(pool, bufs[i], pays[i]));
    }
}

/// The attribute table struct: one 0x18-byte row per attribute, a
/// `GX_VA_NULL` row, and a reference to each row's buffer at row offset
/// 0x14.
fn build_attr_struct(attrs: &[AttrSpec], bufs: &[Option<StructRef>], pool: &mut StructPool) -> (r: StructRef)
    requires
        old(pool).wf(),
        attrs@.len() == bufs@.len(),
        attrs@.len() < 0x100,
        forall|i: int| 0 <= i < bufs@.len() ==> (#[trigger] bufs@[i] matches Some(q) ==> q < old(pool).len()),
    ensures
        grows(*old(pool), *final(pool)),
        r == old(pool).len(),
        final(pool).len() == old(pool).len() + 1,
        final(pool).at(r as int).bytes() == attr_table_bytes(attrs@),
        table_refs_ok(final(pool).at(r as int).refs(), bufs@),
{
    let mut out: Vec<u8> = Vec::new();
    let mut i: usize = 0;
    while i < attrs.len()
        invariant
            i <= attrs@.len(),
            out@ == attr_rows_bytes(attrs@.take(i as int)),
        decreases attrs@.len() - i,
    {
        let a = attrs[i];
        let ghost before = out@;
        push_be32(&mut out, a.name.raw());
        push_be32(&mut out, a.kind.raw());
        push_be32(&mut out, a.comp_count);
        push_be32(&mut out, a.comp_type);
        out.push(0);
        out.push(0);
        push_be16(&mut out, a.stride);
        out.push(0);
        out.push(0);
        out.push(0);
        out.push(0);
        proof {
            assert(attrs@.take(i + 1).drop_last() =~= attrs@.take(i as int));
            assert(out@ =~= before + attr_row_bytes(a));
        }
        i = i + 1;
    }
    proof {
        assert(attrs@.take(attrs@.len() as int) =~= attrs@);
    }
    let ghost rows = out@;
    push_be32(&mut out, GxAttribName::GX_VA_NULL.raw());
    let mut z: usize = 0;
    while z < 0x14
        invariant
            z <= 0x14,
            out@ == rows + be32_bytes(GxAttribName::GX_VA_NULL.raw_of()) + Seq::new(z as nat, |i: int| 0u8),
        decreases 0x14 - z,
    {
        out.push(0);
        proof {
            assert(out@ =~= rows + be32_bytes(GxAttribName::GX_VA_NULL.raw_of()) + Seq::new((z + 1) as nat, |i: int| 0u8));
        }
        z = z + 1;
    }
    let mut s = HsdStruct::from_bytes(out);
    let mut j: usize = 0;
    while j < bufs.len()
        invariant
            j <= bufs@.len(),
            bufs@.len() < 0x100,
            s.wf(),
            s.bytes() == attr_table_bytes(attrs@),
            s.default_flags(),
            forall|i: int| 0 <= i < j ==> table_row_ref(s.refs(), i, #[trigger] bufs@[i]),
            forall|k: u32| #[trigger] s.refs().contains_key(k) ==> k >= 0x14 && (k - 0x14) % 0x18 == 0 && (k - 0x14) / 0x18 < j,
            forall|k: u32| #[trigger] s.refs().contains_key(k) ==> s.refs()[k] < old(pool).len(),
            forall|i: int| 0 <= i < bufs@.len() ==> (#[trigger] bufs@[i] matches Some(q) ==> q < old(pool).len()),
        decreases bufs@.len() - j,
    {
        let off = (j as u32) * 0x18 + 0x14;
        match bufs[j] {
            Some(q) => {
                let ghost r0 = s.refs();
                s.set_reference(off, Some(q));
                proof {
                    assert forall|i: int| 0 <= i < j + 1 implies table_row_ref(s.refs(), i, #[trigger] bufs@[i]) by {
                        if i < j {
                            assert(table_row_ref(r0, i, bufs@[i]));
                            assert((i * 0x18 + 0x14) as u32 != off);
                        }
                    }
                }
            },
            None => {
                proof {
                    assert(table_row_ref(s.refs(), j as int, bufs@[j as int]));
                }
            },
        }
        j = j + 1;
    }
    proof {
        assert forall|k: u32| #[trigger] s.refs().contains_key(k) implies s.refs()[k] < old(pool).len() by {}
    }
    s.into_ref(pool)
}

/// One envelope struct: `(joint, weight)` rows of 8 bytes with the joint
/// held as a reference, then an all-zero terminator row.
fn build_envelope(weights: &[(JObj, u32)], pool: &mut StructPool) -> (r: StructRef)
    requires
        old(pool).wf(),
        weights@.len() < 0x1000_0000,
        forall|j: int| 0 <= j < weights@.len() ==> (#[trigger] weights@[j]).0.0 < old(pool).len(),
    ensures
        grows(*old(pool), *final(pool)),
        r == old(pool).len(),
        final(pool).len() == old(pool).len() + 1,
        envelope_at(*final(pool), r, weights@),
{
    let mut out: Vec<u8> = Vec::new();
    let mut i: usize = 0;
    while i < weights.len()
        invariant
            i <= weights@.len(),
            out@ == envelope_rows_bytes(weights@.take(i as int)),
        decreases weights@.len() - i,
    {
        let w = weights[i];
        let ghost before = out@;
        out.push(0);
        out.push(0);
        out.push(0);
        out.push(0);
        push_be32(&mut out, w.1);
        proof {
            assert(weights@.take(i + 1).drop_last() =~= weights@.take(i as int));
            assert(out@ =~= before + Seq::new(4, |i: int| 0u8) + be32_bytes(w.1));
        }
        i = i + 1;
    }
    proof {
        assert(weights@.take(weights@.len() as int) =~= weights@);
    }
    let ghost rows = out@;
    let mut z: usize = 0;
    while z < 8
        invariant
            z <= 8,
            out@ == rows + Seq::new(z as nat, |i: int| 0u8),
        decreases 8 - z,
    {
        out.push(0);
        proof {
            assert(out@ =~= rows + Seq::new((z + 1) as nat, |i: int| 0u8));
        }
        z = z + 1;
    }
    let ghost targets = weights@.map_values(|w: (JObj, u32)| w.0.0);
    let mut s = HsdStruct::from_bytes(out);
    let mut j: usize = 0;
    while j < weights.len()
        invariant
            j <= weights@.len(),
            weights@.len() < 0x1000_0000,
            targets == weights@.map_values(|w: (JObj, u32)| w.0.0),
            s.wf(),
            s.bytes() == envelope_bytes(weights@),
            s.default_flags(),
            forall|i: int| 0 <= i < j ==> ref_at_8(s.refs(), i, #[trigger] targets[i]),
            forall|k: u32| #[trigger] s.refs().contains_key(k) ==> k % 8 == 0 && k / 8 < j,
            forall|k: u32| #[trigger] s.refs().contains_key(k) ==> s.refs()[k] < old(pool).len(),
            forall|i: int| 0 <= i < weights@.len() ==> (#[trigger] weights@[i]).0.0 < old(pool).len(),
        decreases weights@.len() - j,
    {
        let jobj = weights[j].0;
        let ghost r0 = s.refs();
        s.set_reference((j as u32) * 8, Some(jobj.0));
        proof {
            assert forall|i: int| 0 <= i < j + 1 implies ref_at_8(s.refs(), i, #[trigger] targets[i]) by {
                if i < j {
                    assert(ref_at_8(r0, i, targets[i]));
                    assert((i * 8) as u32 != (j as u32) * 8);
                }
            }
        }
        j = j + 1;
    }
    proof {
        assert(targets.len() == weights@.len());
    }
    s.into_ref(pool)
}

/// The null-terminated array of envelope references (one 4-byte slot per
/// envelope and a final null slot), with each envelope built.
fn build_envelope_array(envelopes: &[Vec<(JObj, u32)>], pool: &mut StructPool) -> (r: StructRef)
    requires
        old(pool).wf(),
        envelopes@.len() < 0x1000_0000,
        forall|i: int| 0 <= i < envelopes@.len() ==> (#[trigger] envelopes@[i])@.len() < 0x1000_0000
            && forall|j: int| 0 <= j < envelopes@[i]@.len() ==> (#[trigger] envelopes@[i]@[j]).0.0 < old(pool).len(),
    ensures
        grows(*old(pool), *final(pool)),
        old(pool).len() <= r < final(pool).len(),
        envelope_array_at(*final(pool), r, envelopes@.map_values(|e: Vec<(JObj, u32)>| e@)),
{
    let ghost envs = envelopes@.map_values(|e: Vec<(JObj, u32)>| e@);
    let n_env = envelopes.len();
    let mut arr = HsdStruct::with_capacity((n_env + 1) * 4);
    let mut i: usize = 0;
    while i < n_env
        invariant
            n_env == envelopes@.len(),
            n_env < 0x1000_0000,
            i <= n_env,
            envs == envelopes@.map_values(|e: Vec<(JObj, u32)>| e@),
            grows(*old(pool), *pool),
            arr.wf(),
            arr.bytes() == Seq::new(((n_env + 1) * 4) as nat, |i: int| 0u8),
            forall|j: int| 0 <= j < i ==> envelope_slot_ok(*pool, arr.refs(), j, #[trigger] envs[j]),
            forall|k: u32| #[trigger] arr.refs().contains_key(k) ==> k % 4 == 0 && k / 4 < i,
            forall|k: u32| #[trigger] arr.refs().contains_key(k) ==> arr.refs()[k] < pool.len(),
            forall|i: int| 0 <= i < envelopes@.len() ==> (#[trigger] envelopes@[i])@.len() < 0x1000_0000
                && forall|j: int| 0 <= j < envelopes@[i]@.len() ==> (#[trigger] envelopes@[i]@[j]).0.0 < old(pool).len(),
        decreases n_env - i,
    {
        let ghost p0 = *pool;
        let ghost r0 = arr.refs();
        assert(envelopes@[i as int]@.len() < 0x1000_0000);
        let env = build_envelope(envelopes[i].as_slice(), pool);
        arr.set_reference((i as u32) * 4, Some(env));
        proof {
            lemma_grows_trans(*old(pool), p0, *pool);
            assert(envs[i as int] == envelopes@[i as int]@);
            assert forall|j: int| 0 <= j < i + 1 implies envelope_slot_ok(*pool, arr.refs(), j, #[trigger] envs[j]) by {
                if j < i {
                    assert(envelope_slot_ok(p0, r0, j, envs[j]));
                    assert((j * 4) as u32 != (i as u32) * 4);
                    lemma_envelope_kept(p0, *pool, r0[(j * 4) as u32], envs[j]);
                }
            }
            assert forall|k: u32| #[trigger] arr.refs().contains_key(k) implies arr.refs()[k] < pool.len() by {
                if k != (i as u32) * 4 {
                    assert(r0.contains_key(k));
                }
            }
        }
        i = i + 1;
    }
    let r = arr.into_ref(pool);
    proof {
        let p = *pool;
        assert(p.at(r as int) == arr);
        assert forall|j: int| 0 <= j < envs.len() implies envelope_slot_ok(p, p.at(r as int).refs(), j, #[trigger] envs[j]) by {
            assert(envelope_slot_ok(p, arr.refs(), j, envs[j]));
        }
    }
    r
}

/// What `build` returns and leaves in the pool, given the display-list
/// outcome.
pub open spec fn build_result(
    m: MeshModel,
    dl: core::result::Result<Seq<u8>, &'static str>,
    r: Result<PObj>,
    pool0: StructPool,
    pool: StructPool,
) -> bool {
    match dl {
        Err(msg) => r == Err::<PObj, HsdError>(HsdError::Malformed { offset: 0, context: msg })
            && pool == pool0,
        Ok(bytes) => if has_empty_envelope(m) {
            r == Err::<PObj, HsdError>(HsdError::Malformed { offset: 0, context: EMPTY_ENVELOPE })
                && pool == pool0
        } else {
            r matches Ok(p) && pobj_built(pool0, pool, p.0, m, bytes)
        },
    }
}

proof fn lemma_needs_env(m: MeshModel)
    ensures
        needs_env(attr_specs(m)) <==> m.envelopes.len() != 0,
{
    let a = attr_specs(m);
    if m.envelopes.len() != 0 {
        assert(is_matrix_index(a[0]));
    } else {
        assert forall|i: int| 0 <= i < a.len() implies !is_matrix_index(#[trigger] a[i]) by {
            assert(a[i] == pos_attr() || a[i] == nrm_attr() || a[i] == clr_attr() || a[i] == tex_attr());
        }
    }
}

/// Every vertex of a strip is a corner of one of the triangles.
proof fn lemma_strip_vertices(
    tris: Seq<[u32; 3]>,
    strips: Seq<Seq<u32>>,
    leftover: Seq<[u32; 3]>,
    drawn: Seq<Seq<usize>>,
    seeds: Seq<usize>,
    owner: Seq<int>,
    bound: int,
)
    requires
        strips_ok(tris, MIN_STRIP_VERTS as int, strips, leftover, drawn, seeds, owner),
        forall|t: int, c: int| 0 <= t < tris.len() && 0 <= c < 3 ==> #[trigger] tris[t][c] < bound,
    ensures
        forall|k: int, i: int| 0 <= k < strips.len() && 0 <= i < strips[k].len() ==> #[trigger] strips[k][i] < bound,
        forall|l: int, c: int| 0 <= l < leftover.len() && 0 <= c < 3 ==> #[trigger] leftover[l][c] < bound,
{
    assert forall|k: int, i: int| 0 <= k < strips.len() && 0 <= i < strips[k].len() implies #[trigger] strips[k][i] < bound by {
        let d = drawn[k];
        assert(strips[k].len() == d.len() + 2 && strips[k].len() >= 4);
        let p = if i < d.len() { i } else { d.len() - 1 };
        let t = d[p] as int;
        assert(tri_set(tris[t]) == strip_tri(strips[k], p));
        assert(strip_tri(strips[k], p).contains(strips[k][i]));
        assert(tri_set(tris[t]).contains(strips[k][i]));
        assert(strips[k][i] == tris[t][0] || strips[k][i] == tris[t][1] || strips[k][i] == tris[t][2]);
    }
    assert forall|l: int, c: int| 0 <= l < leftover.len() && 0 <= c < 3 implies #[trigger] leftover[l][c] < bound by {
        assert(leftover[l] == tris[seeds[l] as int]);
    }
}

impl MeshBuilder {
    /// The first refusal of the input checks, if any.
    fn validate(&self) -> (r: Option<&'static str>)
        ensures
            r == validation_error(self@),
    {
        let n_verts = self.positions.len();
        if n_verts == 0 {
            return Some(NO_POSITIONS);
        }
        if n_verts > 0xFFFF {
            return Some(TOO_MANY_VERTICES);
        }
        if self.triangles.len() == 0 {
            return Some(NO_TRIANGLES);
        }
        if self.normals.len() != 0 && self.normals.len() != n_verts {
            return Some(NORMAL_COUNT);
        }
        if self.colors.len() != 0 && self.colors.len() != n_verts {
            return Some(COLOR_COUNT);
        }
        if self.uvs.len() != 0 && self.uvs.len() != n_verts {
            return Some(UV_COUNT);
        }
        let mut t: usize = 0;
        while t < self.triangles.len()
            invariant
                t <= self@.triangles.len(),
                n_verts == self@.positions.len(),
                counts_ok(self@),
                forall|i: int, c: int| 0 <= i < t && 0 <= c < 3 ==> #[trigger] self@.triangles[i][c] < n_verts,
            decreases self@.triangles.len() - t,
        {
            let tri = self.triangles[t];
            let mut c: usize = 0;
            while c < 3
                invariant
                    t < self@.triangles.len(),
                    tri == self@.triangles[t as int],
                    n_verts == self@.positions.len(),
                    counts_ok(self@),
                    c <= 3,
                    forall|i: int, c2: int| 0 <= i < t && 0 <= c2 < 3 ==> #[trigger] self@.triangles[i][c2] < n_verts,
                    forall|c2: int| 0 <= c2 < c ==> #[trigger] tri[c2] < n_verts,
                decreases 3 - c,
            {
                if tri[c] as usize >= n_verts {
                    proof {
                        assert(self@.triangles[t as int][c as int] >= n_verts);
                    }
                    return Some(TRIANGLE_INDEX);
                }
                c = c + 1;
            }
            proof {
                assert forall|i: int, c2: int| 0 <= i < t + 1 && 0 <= c2 < 3 implies #[trigger] self@.triangles[i][c2] < n_verts by {
                    if i == t {
                        assert(tri[c2] < n_verts);
                    }
                }
            }
            t = t + 1;
        }
        if self.envelopes.len() != 0 {
            if self.envelope_indices.len() != n_verts {
                return Some(ENVELOPE_INDEX_COUNT);
            }
            let mut e: usize = 0;
            while e < self.envelope_indices.len()
                invariant
                    e <= self@.envelope_indices.len(),
                    self.envelopes@.len() == self@.envelopes.len(),
                    self@.envelopes.len() != 0,
                    self@.envelope_indices.len() == self@.positions.len(),
                    counts_ok(self@),
                    forall|i: int, c: int| 0 <= i < self@.triangles.len() && 0 <= c < 3 ==> #[trigger] self@.triangles[i][c] < self@.positions.len(),
                    forall|i: int| 0 <= i < e ==> #[trigger] self@.envelope_indices[i] < self@.envelopes.len(),
                decreases self@.envelope_indices.len() - e,
            {
                if self.envelope_indices[e] as usize >= self.envelopes.len() {
                    proof {
                        assert(self@.envelope_indices[e as int] >= self@.envelopes.len());
                    }
                    return Some(ENVELOPE_INDEX);
                }
                e = e + 1;
            }
            if self.envelopes.len() >= 86 {
                return Some(TOO_MANY_ENVELOPES);
            }
            None
        } else if self.envelope_indices.len() != 0 {
            Some(INDICES_WITHOUT_ENVELOPES)
        } else {
            None
        }
    }

    /// The attribute table rows.
    fn attr_table(&self) -> (attrs: Vec<AttrSpec>)
        ensures
            attrs@ == attr_specs(self@),
    {
        let mut attrs: Vec<AttrSpec> = Vec::new();
        if self.envelopes.len() != 0 {
            attrs.push(AttrSpec {
                name: GxAttribName::GX_VA_PNMTXIDX,
                kind: GxAttribType::GX_DIRECT,
                comp_count: 0,
                comp_type: 0,
                stride: 0,
            });
        }
        attrs.push(AttrSpec {
            name: GxAttribName::GX_VA_POS,
            kind: GxAttribType::GX_INDEX16,
            comp_count: 1,
            comp_type: GxCompType::Float.raw(),
            stride: 12,
        });
        if self.normals.len() != 0 {
            attrs.push(AttrSpec {
                name: GxAttribName::GX_VA_NRM,
                kind: GxAttribType::GX_INDEX16,
                comp_count: 0,
                comp_type: GxCompType::Float.raw(),
                stride: 12,
            });
        }
        if self.colors.len() != 0 {
            attrs.push(AttrSpec {
                name: GxAttribName::GX_VA_CLR0,
                kind: GxAttribType::GX_INDEX16,
                comp_count: 1,
                comp_type: 5,
                stride: 4,
            });
        }
        if self.uvs.len() != 0 {
            attrs.push(AttrSpec {
                name: GxAttribName::GX_VA_TEX0,
                kind: GxAttribType::GX_INDEX16,
                comp_count: 1,
                comp_type: GxCompType::Float.raw(),
                stride: 8,
            });
        }
        proof {
            assert(attrs@ =~= attr_specs(self@));
        }
        attrs
    }

    /// Add the per-attribute buffers, parallel to the attribute table.
    fn add_buffers(&self, pool: &mut StructPool) -> (bufs: Vec<Option<StructRef>>)
        requires
            old(pool).wf(),
        ensures
            grows(*old(pool), *final(pool)),
            bufs@.len() == attr_payloads(self@).len(),
            forall|i: int| 0 <= i < bufs@.len() ==> buf_matches(*final(pool), #[trigger] bufs@[i], attr_payloads(self@)[i]),
    {
        let ghost m = self@;
        let mut bufs: Vec<Option<StructRef>> = Vec::new();
        let ghost mut pays: Seq<Option<Seq<u8>>> = Seq::empty();
        if self.envelopes.len() != 0 {
            bufs.push(None);
            proof {
                pays = pays.push(None);
            }
        }
        proof {
            assert(grows(*old(pool), *pool));
        }
        assert(forall|i: int| 0 <= i < bufs@.len() ==> buf_matches(*pool, #[trigger] bufs@[i], pays[i]));
        let ghost p0 = *pool;
        let pos_ref = make_buffer_struct(encode_f32_buffer(self.positions.as_slice()), pool);
        proof {
            lemma_bufs_kept(p0, *pool, bufs@, pays);
            lemma_grows_trans(*old(pool), p0, *pool);
            pays = pays.push(Some(vec3_bytes(m.positions)));
        }
        bufs.push(Some(pos_ref));
        if self.normals.len() != 0 {
            let ghost p1 = *pool;
            let r = make_buffer_struct(encode_f32_buffer(self.normals.as_slice()), pool);
            proof {
                lemma_bufs_kept(p1, *pool, bufs@, pays);
                lemma_grows_trans(*old(pool), p1, *pool);
                pays = pays.push(Some(vec3_bytes(m.normals)));
            }
            bufs.push(Some(r));
        }
        if self.colors.len() != 0 {
            let ghost p1 = *pool;
            let r = make_buffer_struct(encode_rgba_buffer(self.colors.as_slice()), pool);
            proof {
                lemma_bufs_kept(p1, *pool, bufs@, pays);
                lemma_grows_trans(*old(pool), p1, *pool);
                pays = pays.push(Some(rgba_bytes(m.colors)));
            }
            bufs.push(Some(r));
        }
        if self.uvs.len() != 0 {
            let ghost p1 = *pool;
            let r = make_buffer_struct(encode_f32x2_buffer(self.uvs.as_slice()), pool);
            proof {
                lemma_bufs_kept(p1, *pool, bufs@, pays);
                lemma_grows_trans(*old(pool), p1, *pool);
                pays = pays.push(Some(vec2_bytes(m.uvs)));
            }
            bufs.push(Some(r));
        }
        proof {
            assert(pays =~= attr_payloads(m));
        }
        bufs
    }
}

proof fn lemma_bufs_kept(p0: StructPool, p1: StructPool, bufs: Seq<Option<StructRef>>, pays: Seq<Option<Seq<u8>>>)
    requires
        grows(p0, p1),
        bufs.len() == pays.len(),
        forall|i: int| 0 <= i < bufs.len() ==> buf_matches(p0, #[trigger] bufs[i], pays[i]),
    ensures
        forall|i: int| 0 <= i < bufs.len() ==> buf_matches(p1, #[trigger] bufs[i], pays[i]),
{
    assert forall|i: int| 0 <= i < bufs.len() implies buf_matches(p1, #[trigger] bufs[i], pays[i]) by {
        assert(buf_matches(p0, bufs[i], pays[i]));
        if let (Some(r), Some(x)) = (bufs[i], pays[i]) {
            lemma_buffer_kept(p0, p1, r, x);
        }
    }
}

impl MeshBuilder {
    /// Validate the inputs and build the POBJ: an attribute table, one
    /// 0x20-aligned buffer per attribute, the display list (greedy strips
    /// plus leftover triangles, or one group of triangles), the envelope
    /// array when envelopes are in use, and the 0x18-byte POBJ itself.  On
    /// a refusal the pool is left as it was.
    pub fn build(self, pool: &mut StructPool) -> (r: Result<PObj>)
        requires
            old(pool).wf(),
            envelopes_fit(self@, old(pool).len()),
        ensures
            validation_error(self@) matches Some(msg) ==> r == Err::<PObj, HsdError>(
                HsdError::Malformed { offset: 0, context: msg },
            ) && *final(pool) == *old(pool),
            validation_error(self@) is None ==> exists|st: Seq<Seq<u32>>, lo: Seq<[u32; 3]>|
                #[trigger] strip_plan(self@, st, lo) && build_result(
                    self@,
                    dl_outcome(self@, st, lo),
                    r,
                    *old(pool),
                    *final(pool),
                ),
    {
        let ghost m = self@;
        if let Some(msg) = self.validate() {
            return Err(HsdError::malformed(0, msg));
        }
        let use_envelopes = self.envelopes.len() != 0;
        let attrs = self.attr_table();
        let env_per_vertex: Option<&[u32]> = if use_envelopes {
            Some(self.envelope_indices.as_slice())
        } else {
            None
        };
        proof {
            lemma_needs_env(m);
            assert(env_view(env_per_vertex) == dl_env(m));
            assert forall|v: u32| v < m.positions.len() implies env_fits(attrs@, env_per_vertex, v) by {
                if use_envelopes {
                    assert(m.envelope_indices[v as int] < m.envelopes.len());
                }
            }
            assert forall|i: int, c: int| 0 <= i < m.triangles.len() && 0 <= c < 3 implies #[trigger] m.triangles[i][c] < m.positions.len() by {
                if m.triangles[i][c] >= m.positions.len() {
                    assert(validation_error(m) == Some(TRIANGLE_INDEX));
                }
            }
        }
        let ghost mut st: Seq<Seq<u32>> = Seq::empty();
        let ghost mut lo: Seq<[u32; 3]> = Seq::empty();
        let dl_buf = if self.use_triangle_strips {
            let (strips, leftover, Ghost(plan)) = build_strips(self.triangles.as_slice(), MIN_STRIP_VERTS);
            proof {
                st = strip_seqs(strips@);
                lo = leftover@;
                lemma_strip_vertices(m.triangles, st, lo, plan.0, plan.1, plan.2, m.positions.len() as int);
                assert(strip_plan(m, st, lo));
            }
            match encode_dl_mixed(strips.as_slice(), leftover.as_slice(), attrs.as_slice(), env_per_vertex) {
                Ok(b) => b,
                Err(e) => {
                    return Err(e);
                },
            }
        } else {
            if self.triangles.len() > 0x5555 {
                proof {
                    assert(strip_plan(m, st, lo));
                }
                return Err(HsdError::malformed(0, TOO_MANY_TRIANGLES));
            }
            encode_dl_triangles(self.triangles.as_slice(), attrs.as_slice(), env_per_vertex)
        };
        proof {
            assert(strip_plan(m, st, lo));
            assert(dl_outcome(m, st, lo) == Ok::<Seq<u8>, &'static str>(dl_buf@));
        }
        let mut k: usize = 0;
        while k < self.envelopes.len()
            invariant
                k <= m.envelopes.len(),
                self@ == m,
                self.envelopes@.len() == m.envelopes.len(),
                forall|i: int| 0 <= i < k ==> #[trigger] m.envelopes[i].len() != 0,
                validation_error(m) is None,
                strip_plan(m, st, lo),
                dl_outcome(m, st, lo) == Ok::<Seq<u8>, &'static str>(dl_buf@),
                *pool == *old(pool),
            decreases m.envelopes.len() - k,
        {
            if self.envelopes[k].len() == 0 {
                proof {
                    assert(m.envelopes[k as int].len() == 0);
                    assert(has_empty_envelope(m));
                }
                return Err(HsdError::malformed(0, EMPTY_ENVELOPE));
            }
            k = k + 1;
        }
        let ghost pool0 = *old(pool);
        let bufs = self.add_buffers(pool);
        let ghost p1 = *pool;
        proof {
            assert forall|i: int| 0 <= i < bufs@.len() implies (#[trigger] bufs@[i] matches Some(q) ==> q < p1.len()) by {
                assert(buf_matches(p1, bufs@[i], attr_payloads(m)[i]));
            }
        }
        let attr_ref = build_attr_struct(attrs.as_slice(), bufs.as_slice(), pool);
        let ghost p2 = *pool;
        proof {
            lemma_bufs_kept(p1, p2, bufs@, attr_payloads(m));
            lemma_table_refs(p2, p2.at(attr_ref as int).refs(), bufs@, attr_payloads(m));
            assert(attr_table_at(p2, attr_ref, m));
            lemma_grows_trans(pool0, p1, p2);
        }
        let dl_len = dl_buf.len();
        let dl_size_in_32_units = (dl_len / 32) as i16;
        let ghost dl = dl_buf@;
        let dl_ref = make_buffer_struct(dl_buf, pool);
        let ghost p3 = *pool;
        proof {
            lemma_attr_table_kept(p2, p3, attr_ref, m);
            lemma_grows_trans(pool0, p2, p3);
        }
        let envelope_array_ref = if use_envelopes {
            assert(m.envelopes.len() < 86);
            assert forall|i: int| 0 <= i < self.envelopes@.len() implies (#[trigger] self.envelopes@[i])@.len() < 0x1000_0000
                && forall|j: int| 0 <= j < self.envelopes@[i]@.len() ==> (#[trigger] self.envelopes@[i]@[j]).0.0 < p3.len() by {
                assert(m.envelopes[i] == self.envelopes@[i]@);
                assert forall|j: int| 0 <= j < self.envelopes@[i]@.len() implies (#[trigger] self.envelopes@[i]@[j]).0.0 < p3.len() by {
                    assert(m.envelopes[i][j] == self.envelopes@[i]@[j]);
                }
            }
            let e = build_envelope_array(self.envelopes.as_slice(), pool);
            proof {
                lemma_attr_table_kept(p3, *pool, attr_ref, m);
                lemma_buffer_kept(p3, *pool, dl_ref, dl);
                lemma_grows_trans(pool0, p3, *pool);
            }
            Some(e)
        } else {
            None
        };
        let ghost p4 = *pool;
        let mut s = HsdStruct::with_capacity(0x18);
        s.set_reference(0x08, Some(attr_ref));
        let flags: u16 = if use_envelopes { PObjFlag::ENVELOPE } else { 0 };
        let _ = s.set_u16(0x0C, flags);
        let _ = s.set_i16(0x0E, dl_size_in_32_units);
        s.set_reference(0x10, Some(dl_ref));
        s.set_reference(0x14, envelope_array_ref);
        proof {
            assert(s.bytes() == pobj_bytes(pobj_flags(m), (dl.len() / 32) as i16));
            assert forall|k2: u32| #[trigger] s.refs().contains_key(k2) implies s.refs()[k2] < p4.len() by {}
        }
        let p = s.into_ref(pool);
        proof {
            let pf = *pool;
            assert(grows(p4, pf));
            lemma_grows_trans(pool0, p4, pf);
            lemma_attr_table_kept(p4, pf, attr_ref, m);
            lemma_buffer_kept(p4, pf, dl_ref, dl);
            if use_envelopes {
                lemma_envelope_array_kept(p4, pf, envelope_array_ref->0, m.envelopes);
            }
            assert(pf.at(p as int) == s);
            assert(s.refs().dom() =~= (if m.envelopes.len() != 0 {
                set![0x08u32, 0x10u32, 0x14u32]
            } else {
                set![0x08u32, 0x10u32]
            }));
            assert(pobj_built(pool0, pf, p, m, dl));
            assert(!has_empty_envelope(m));
        }
        Ok(PObj(p))
    }
}

// ---------------------------------------------------------------------
// Reading back what was written
// ---------------------------------------------------------------------

/// The value the reader records for attribute `a` of vertex `v`: the inline
/// matrix slot, or the 16-bit index.
pub open spec fn value_of(a: AttrSpec, v: u32, env: Seq<u32>) -> u16 {
    if is_matrix_index(a) {
        ((env[v as int] * 3) as u8) as u16
    } else if a.kind == GxAttribType::GX_INDEX16 {
        v as u16
    } else {
        0
    }
}

/// The values the reader records for vertex `v`, in table order.
pub open spec fn values_of(attrs: Seq<AttrSpec>, v: u32, env: Seq<u32>) -> Seq<u16>
    decreases attrs.len(),
{
    if attrs.len() == 0 {
        Seq::empty()
    } else {
        values_of(attrs.drop_last(), v, env).push(value_of(attrs.last(), v, env))
    }
}

/// The attributes the writer emits: the inline matrix index or 16-bit
/// indices.
pub open spec fn writer_shaped(attrs: Seq<AttrSpec>) -> bool {
    forall|i: int|
        0 <= i < attrs.len() ==> (is_matrix_index(#[trigger] attrs[i]) || attrs[i].kind == GxAttribType::GX_INDEX16)
            && attrs[i].name != GxAttribName::GX_VA_NULL
}

/// Rows read back from a table the writer wrote: the same names and kinds,
/// then the `GX_VA_NULL` row.
pub open spec fn rows_match(rows: Seq<GxAttribute>, attrs: Seq<AttrSpec>) -> bool {
    &&& rows.len() == attrs.len() + 1
    &&& forall|i: int| 0 <= i < attrs.len() ==> (#[trigger] rows[i]).name == attrs[i].name && rows[i].kind == attrs[i].kind
    &&& rows.last().name == GxAttribName::GX_VA_NULL
}

/// The vertex the reader yields for vertex `v` of a written display list.
pub open spec fn read_back_vertex(attrs: Seq<AttrSpec>, v: u32, env: Seq<u32>) -> RawVertex {
    RawVertex { values: values_of(attrs, v, env).push(0), clr0: None, clr1: None }
}

/// `b` holds `x` at `pos`.
pub open spec fn holds_at(b: Seq<u8>, pos: int, x: Seq<u8>) -> bool {
    0 <= pos && pos + x.len() <= b.len() && b.subrange(pos, pos + x.len()) == x
}

proof fn lemma_holds_prefix(b: Seq<u8>, pos: int, x: Seq<u8>, y: Seq<u8>)
    requires
        holds_at(b, pos, x + y),
    ensures
        holds_at(b, pos, x),
        holds_at(b, pos + x.len(), y),
{
    let w = b.subrange(pos, pos + (x + y).len());
    assert(w == x + y);
    assert(b.subrange(pos, pos + x.len()) =~= w.subrange(0, x.len() as int));
    assert(w.subrange(0, x.len() as int) =~= x);
    assert(b.subrange(pos + x.len(), pos + x.len() + y.len()) =~= w.subrange(x.len() as int, (x.len() + y.len()) as int));
    assert(w.subrange(x.len() as int, (x.len() + y.len()) as int) =~= y);
}

proof fn lemma_vertex_read_back(
    rows: Seq<GxAttribute>,
    attrs: Seq<AttrSpec>,
    v: u32,
    env: Seq<u32>,
    b: Seq<u8>,
    pos: int,
)
    requires
        rows.len() == attrs.len(),
        forall|i: int| 0 <= i < attrs.len() ==> (#[trigger] rows[i]).name == attrs[i].name && rows[i].kind == attrs[i].kind,
        writer_shaped(attrs),
        holds_at(b, pos, vertex_bytes(attrs, v, env)),
    ensures
        vertex_read(rows, b, pos) == Ok::<(RawVertex, int), &'static str>(
            (RawVertex { values: values_of(attrs, v, env), clr0: None, clr1: None }, pos + vertex_bytes(attrs, v, env).len()),
        ),
    decreases attrs.len(),
{
    if attrs.len() > 0 {
        let a = attrs.last();
        let r = rows.last();
        let pre = vertex_bytes(attrs.drop_last(), v, env);
        let x = attr_vertex_bytes(a, v, env);
        lemma_holds_prefix(b, pos, pre, x);
        assert(writer_shaped(attrs.drop_last())) by {
            assert forall|i: int| 0 <= i < attrs.drop_last().len() implies (is_matrix_index(#[trigger] attrs.drop_last()[i]) || attrs.drop_last()[i].kind == GxAttribType::GX_INDEX16) && attrs.drop_last()[i].name != GxAttribName::GX_VA_NULL by {
                assert(attrs.drop_last()[i] == attrs[i]);
            }
        }
        assert forall|i: int| 0 <= i < attrs.drop_last().len() implies (#[trigger] rows.drop_last()[i]).name == attrs.drop_last()[i].name && rows.drop_last()[i].kind == attrs.drop_last()[i].kind by {
            assert(rows.drop_last()[i] == rows[i]);
            assert(attrs.drop_last()[i] == attrs[i]);
        }
        lemma_vertex_read_back(rows.drop_last(), attrs.drop_last(), v, env, b, pos);
        let p = pos + pre.len();
        assert(r.name == a.name && r.kind == a.kind);
        assert((is_matrix_index(attrs[attrs.len() - 1]) || attrs[attrs.len() - 1].kind == GxAttribType::GX_INDEX16) && attrs[attrs.len() - 1].name != GxAttribName::GX_VA_NULL);
        assert(b.subrange(p, p + x.len()) == x);
        if is_matrix_index(a) {
            assert(b[p] == x[0]);
        } else {
            assert(b[p] == x[0] && b[p + 1] == x[1]);
            lemma_be16_roundtrip(v as u16);
        }
    }
}

proof fn lemma_verts_read_back(
    rows: Seq<GxAttribute>,
    attrs: Seq<AttrSpec>,
    verts: Seq<u32>,
    env: Seq<u32>,
    b: Seq<u8>,
    pos: int,
)
    requires
        rows_match(rows, attrs),
        writer_shaped(attrs),
        holds_at(b, pos, verts_bytes(attrs, verts, env)),
    ensures
        verts_read(rows, b, pos, verts.len()) == Ok::<(Seq<RawVertex>, int), &'static str>(
            (verts.map_values(|x: u32| read_back_vertex(attrs, x, env)), pos + verts_bytes(attrs, verts, env).len()),
        ),
    decreases verts.len(),
{
    if verts.len() > 0 {
        let v = verts.last();
        let pre = verts_bytes(attrs, verts.drop_last(), env);
        let x = vertex_bytes(attrs, v, env);
        lemma_holds_prefix(b, pos, pre, x);
        lemma_verts_read_back(rows, attrs, verts.drop_last(), env, b, pos);
        assert((verts.len() - 1) as nat == verts.drop_last().len());
        let p = pos + pre.len();
        assert(rows.drop_last().len() == attrs.len());
        assert forall|i: int| 0 <= i < attrs.len() implies (#[trigger] rows.drop_last()[i]).name == attrs[i].name && rows.drop_last()[i].kind == attrs[i].kind by {
            assert(rows.drop_last()[i] == rows[i]);
        }
        lemma_vertex_read_back(rows.drop_last(), attrs, v, env, b, p);
        assert(verts.map_values(|x: u32| read_back_vertex(attrs, x, env)) =~= verts.drop_last().map_values(
            |x: u32| read_back_vertex(attrs, x, env),
        ).push(read_back_vertex(attrs, v, env)));
    } else {
        assert(verts.map_values(|x: u32| read_back_vertex(attrs, x, env)) =~= Seq::<RawVertex>::empty());
    }
}

/// Reading back a one-group display list: the group is read with its
/// opcode and, for each corner in order, the index (and matrix slot) the
/// writer wrote; the terminator ends the list.
pub proof fn law_triangles_read_back(rows: Seq<GxAttribute>, attrs: Seq<AttrSpec>, tris: Seq<[u32; 3]>, env: Seq<u32>)
    requires
        rows_match(rows, attrs),
        writer_shaped(attrs),
        tris.len() * 3 <= 0xFFFF,
    ensures
        groups_read(rows, dl_triangles(attrs, tris, env), 0) == Ok::<Seq<RawGroup>, &'static str>(
            seq![RawGroup {
                primitive_type: GxPrimitiveType::Triangles,
                vertices: tri_verts(tris).map_values(|x: u32| read_back_vertex(attrs, x, env)),
            }],
        ),
{
    let verts = tri_verts(tris);
    lemma_tri_verts_len(tris);
    let g = group_bytes(GX_DRAW_TRIANGLES, attrs, verts, env);
    let b = dl_triangles(attrs, tris, env);
    let vb = verts_bytes(attrs, verts, env);
    assert(b =~= g.push(0u8) + Seq::new(pad32_len(g.len() + 1), |i: int| 0u8));
    assert(g =~= seq![GX_DRAW_TRIANGLES] + be16_bytes(verts.len() as u16) + vb);
    assert(b[0] == GX_DRAW_TRIANGLES);
    assert(b[1] == be16_bytes(verts.len() as u16)[0] && b[2] == be16_bytes(verts.len() as u16)[1]);
    lemma_be16_roundtrip(verts.len() as u16);
    assert(be16(b, 1) == verts.len());
    assert(b.subrange(3, 3 + vb.len() as int) =~= vb);
    lemma_verts_read_back(rows, attrs, verts, env, b, 3);
    let p: int = 3 + vb.len() as int;
    assert(b[p] == 0);
    assert(groups_read(rows, b, p) == Ok::<Seq<RawGroup>, &'static str>(Seq::empty()));
    assert(GxPrimitiveType::of_raw(GX_DRAW_TRIANGLES) == GxPrimitiveType::Triangles);
}

/// The group the reader yields for a written group.
pub open spec fn read_back_group(prim: u8, attrs: Seq<AttrSpec>, verts: Seq<u32>, env: Seq<u32>) -> RawGroup {
    RawGroup {
        primitive_type: GxPrimitiveType::of_raw(prim),
        vertices: verts.map_values(|x: u32| read_back_vertex(attrs, x, env)),
    }
}

proof fn lemma_group_read_back(
    rows: Seq<GxAttribute>,
    attrs: Seq<AttrSpec>,
    prim: u8,
    verts: Seq<u32>,
    env: Seq<u32>,
    b: Seq<u8>,
    pos: int,
)
    requires
        rows_match(rows, attrs),
        writer_shaped(attrs),
        prim != 0,
        verts.len() <= 0xFFFF,
        holds_at(b, pos, group_bytes(prim, attrs, verts, env)),
    ensures
        groups_read(rows, b, pos) == prepend_groups(
            seq![read_back_group(prim, attrs, verts, env)],
            groups_read(rows, b, pos + group_bytes(prim, attrs, verts, env).len()),
        ),
{
    let vb = verts_bytes(attrs, verts, env);
    let hd = seq![prim] + be16_bytes(verts.len() as u16);
    assert(group_bytes(prim, attrs, verts, env) == hd + vb);
    lemma_holds_prefix(b, pos, hd, vb);
    assert(b.subrange(pos, pos + 3) == hd);
    assert(b[pos] == hd[0] && b[pos + 1] == hd[1] && b[pos + 2] == hd[2]);
    lemma_be16_roundtrip(verts.len() as u16);
    assert(be16(b, pos + 1) == verts.len());
    lemma_verts_read_back(rows, attrs, verts, env, b, pos + 3);
    let r = groups_read(rows, b, pos + 3 + vb.len());
    match r {
        Ok(x) => {},
        Err(e) => {},
    }
}

proof fn lemma_strip_groups_front(attrs: Seq<AttrSpec>, strips: Seq<Seq<u32>>, env: Seq<u32>)
    requires
        strips.len() > 0,
    ensures
        strip_groups(attrs, strips, env) == group_bytes(GX_DRAW_TRIANGLE_STRIP, attrs, strips[0], env)
            + strip_groups(attrs, strips.drop_first(), env),
    decreases strips.len(),
{
    if strips.len() == 1 {
        assert(strips.drop_last() =~= Seq::<Seq<u32>>::empty());
        assert(strips.drop_first() =~= Seq::<Seq<u32>>::empty());
        assert(strip_groups(attrs, strips.drop_last(), env) == Seq::<u8>::empty());
        assert(strip_groups(attrs, strips.drop_first(), env) == Seq::<u8>::empty());
        assert(strips.last() == strips[0]);
        assert(strip_groups(attrs, strips, env) =~= group_bytes(GX_DRAW_TRIANGLE_STRIP, attrs, strips[0], env));
        assert(strip_groups(attrs, strips, env) =~= group_bytes(GX_DRAW_TRIANGLE_STRIP, attrs, strips[0], env)
            + strip_groups(attrs, strips.drop_first(), env));
    } else {
        lemma_strip_groups_front(attrs, strips.drop_last(), env);
        assert(strips.drop_last().drop_first() =~= strips.drop_first().drop_last());
        assert(strips.drop_first().last() == strips.last());
        assert(strips.drop_last()[0] == strips[0]);
        assert(strip_groups(attrs, strips, env) =~= group_bytes(GX_DRAW_TRIANGLE_STRIP, attrs, strips[0], env)
            + strip_groups(attrs, strips.drop_first(), env));
    }
}

proof fn lemma_strips_read_back(
    rows: Seq<GxAttribute>,
    attrs: Seq<AttrSpec>,
    strips: Seq<Seq<u32>>,
    env: Seq<u32>,
    b: Seq<u8>,
    pos: int,
)
    requires
        rows_match(rows, attrs),
        writer_shaped(attrs),
        !strip_overflow(strips),
        holds_at(b, pos, strip_groups(attrs, strips, env)),
    ensures
        groups_read(rows, b, pos) == prepend_groups(
            strips.map_values(|s: Seq<u32>| read_back_group(GX_DRAW_TRIANGLE_STRIP, attrs, s, env)),
            groups_read(rows, b, pos + strip_groups(attrs, strips, env).len()),
        ),
    decreases strips.len(),
{
    let f = |s: Seq<u32>| read_back_group(GX_DRAW_TRIANGLE_STRIP, attrs, s, env);
    if strips.len() == 0 {
        assert(strips.map_values(f) =~= Seq::<RawGroup>::empty());
        let r = groups_read(rows, b, pos);
        match r {
            Ok(x) => {
                assert(Seq::<RawGroup>::empty() + x =~= x);
            },
            Err(e) => {},
        }
    } else {
        lemma_strip_groups_front(attrs, strips, env);
        let g = group_bytes(GX_DRAW_TRIANGLE_STRIP, attrs, strips[0], env);
        let rest = strip_groups(attrs, strips.drop_first(), env);
        lemma_holds_prefix(b, pos, g, rest);
        assert(strips[0].len() <= 0xFFFF) by {
            if strips[0].len() > 0xFFFF {
                assert(strip_overflow(strips));
            }
        }
        lemma_group_read_back(rows, attrs, GX_DRAW_TRIANGLE_STRIP, strips[0], env, b, pos);
        assert(!strip_overflow(strips.drop_first())) by {
            if strip_overflow(strips.drop_first()) {
                let k = choose|k: int| 0 <= k < strips.drop_first().len() && #[trigger] strips.drop_first()[k].len() > 0xFFFF;
                assert(strips[k + 1].len() > 0xFFFF);
            }
        }
        lemma_strips_read_back(rows, attrs, strips.drop_first(), env, b, pos + g.len());
        assert(strips.map_values(f) =~= seq![f(strips[0])] + strips.drop_first().map_values(f));
        let r = groups_read(rows, b, pos + g.len() + rest.len());
        match r {
            Ok(x) => {
                assert(seq![f(strips[0])] + (strips.drop_first().map_values(f) + x) =~= strips.map_values(f) + x);
            },
            Err(e) => {},
        }
    }
}

/// Reading back a display list of strips and leftover triangles: one
/// triangle-strip group per strip, then the leftover group, each vertex with
/// the index (and matrix slot) the writer wrote; the terminator ends the
/// list.
pub proof fn law_strips_read_back(
    rows: Seq<GxAttribute>,
    attrs: Seq<AttrSpec>,
    strips: Seq<Seq<u32>>,
    leftover: Seq<[u32; 3]>,
    env: Seq<u32>,
)
    requires
        rows_match(rows, attrs),
        writer_shaped(attrs),
        !strip_overflow(strips),
        leftover.len() * 3 <= 0xFFFF,
    ensures
        groups_read(rows, dl_mixed(attrs, strips, leftover, env), 0) == Ok::<Seq<RawGroup>, &'static str>(
            strips.map_values(|s: Seq<u32>| read_back_group(GX_DRAW_TRIANGLE_STRIP, attrs, s, env))
                + if leftover.len() > 0 {
                seq![read_back_group(GX_DRAW_TRIANGLES, attrs, tri_verts(leftover), env)]
            } else {
                Seq::empty()
            },
        ),
{
    let sg = strip_groups(attrs, strips, env);
    let lg = if leftover.len() > 0 {
        group_bytes(GX_DRAW_TRIANGLES, attrs, tri_verts(leftover), env)
    } else {
        Seq::empty()
    };
    let body = sg + lg;
    let b = dl_mixed(attrs, strips, leftover, env);
    assert(b =~= body.push(0u8) + Seq::new(pad32_len(body.len() + 1), |i: int| 0u8));
    assert(b.subrange(0, body.len() as int) =~= body);
    lemma_holds_prefix(b, 0, sg, lg);
    lemma_strips_read_back(rows, attrs, strips, env, b, 0);
    let p: int = sg.len() as int;
    let q: int = body.len() as int;
    assert(b[q] == 0);
    assert(groups_read(rows, b, q) == Ok::<Seq<RawGroup>, &'static str>(Seq::empty()));
    let lo_groups: Seq<RawGroup> = if leftover.len() > 0 {
        seq![read_back_group(GX_DRAW_TRIANGLES, attrs, tri_verts(leftover), env)]
    } else {
        Seq::empty()
    };
    if leftover.len() > 0 {
        lemma_tri_verts_len(leftover);
        lemma_group_read_back(rows, attrs, GX_DRAW_TRIANGLES, tri_verts(leftover), env, b, p);
        assert(lo_groups + Seq::<RawGroup>::empty() =~= lo_groups);
    }
    assert(groups_read(rows, b, p) == Ok::<Seq<RawGroup>, &'static str>(lo_groups));
}

} // verus!
