//! Applying a scene-edit set (joint hierarchy, flags, TRS and alias roots)
//! back onto a `.dat`.

use crate::be::{be32, be32_bytes, splice};
use crate::common::{grown, JObj, SObj};
use crate::dat::{Dat, RootNode};
use crate::error::{HsdError, Result};
use crate::export::{dec, push_dec};
use crate::gx::{jobj_flag_from_name, jobj_flag_of_name, str_eq, JObjFlag};
use crate::hsd_struct::{count_false, lemma_count_false_flip, lemma_count_false_mono, ptr_eq, StructPool, StructRef};
use vstd::prelude::*;
use vstd::string::StrSliceExecFns;

verus! {

/// Counters of what an import changed.
#[derive(Debug, Clone, Copy)]
pub struct ImportStats {
    pub joints_walked: u32,
    pub new_joints: u32,
    pub aliases_added: u32,
    pub aliases_repointed: u32,
    pub aliases_removed: u32,
    pub trs_changed: u32,
    pub flags_changed: u32,
    pub hierarchy_rewired: u32,
}

/// All counters zero.
pub open spec fn zero_stats() -> ImportStats {
    ImportStats {
        joints_walked: 0,
        new_joints: 0,
        aliases_added: 0,
        aliases_repointed: 0,
        aliases_removed: 0,
        trs_changed: 0,
        flags_changed: 0,
        hierarchy_rewired: 0,
    }
}

impl Default for ImportStats {
    fn default() -> (s: Self)
        ensures
            s == zero_stats(),
    {
        ImportStats {
            joints_walked: 0,
            new_joints: 0,
            aliases_added: 0,
            aliases_repointed: 0,
            aliases_removed: 0,
            trs_changed: 0,
            flags_changed: 0,
            hierarchy_rewired: 0,
        }
    }
}

/// `s` ends with `suffix`.
pub open spec fn ends_with(s: Seq<char>, suffix: Seq<char>) -> bool {
    s.len() >= suffix.len() && s.subrange(s.len() - suffix.len(), s.len() as int) == suffix
}

fn str_ends_with(s: &str, suffix: &str) -> (b: bool)
    ensures
        b == ends_with(s@, suffix@),
{
    let n = s.unicode_len();
    let k = suffix.unicode_len();
    if n < k {
        return false;
    }
    let tail = s.substring_char(n - k, n);
    str_eq(tail, suffix)
}

/// A root name that names a joint: it ends with `_joint` but is not an
/// animation joint (`_animjoint`, `matanim_joint`, `shapeanim_joint`).
pub open spec fn jobj_root_name(name: Seq<char>) -> bool {
    ends_with(name, "_joint"@) && !ends_with(name, "_animjoint"@) && !ends_with(name, "matanim_joint"@)
        && !ends_with(name, "shapeanim_joint"@)
}

/// Whether a root of this name is taken to be a joint.
pub fn looks_like_jobj_root(name: &str) -> (b: bool)
    ensures
        b == jobj_root_name(name@),
{
    str_ends_with(name, "_joint") && !str_ends_with(name, "_animjoint") && !str_ends_with(
        name,
        "matanim_joint",
    ) && !str_ends_with(name, "shapeanim_joint")
}

/// The first three components of `v` (as `f32` bits), zero for those
/// missing.
pub open spec fn pad3_of(v: Seq<u32>) -> [u32; 3] {
    [
        if v.len() > 0 { v[0] } else { 0 },
        if v.len() > 1 { v[1] } else { 0 },
        if v.len() > 2 { v[2] } else { 0 },
    ]
}

/// Three components from a JSON array that may be short (missing ones are
/// `0.0`, whose bits are zero).
pub fn pad3(v: &[u32]) -> (r: [u32; 3])
    ensures
        r == pad3_of(v@),
{
    [
        if v.len() > 0 { v[0] } else { 0 },
        if v.len() > 1 { v[1] } else { 0 },
        if v.len() > 2 { v[2] } else { 0 },
    ]
}

/// Both absent, or both the same struct.
pub open spec fn same_joint(a: Option<JObj>, b: Option<JObj>) -> bool {
    match (a, b) {
        (None, None) => true,
        (Some(x), Some(y)) => x.0 == y.0,
        _ => false,
    }
}

/// Both absent, or both the same struct (identity, not content).
pub fn same_jobj(a: Option<JObj>, b: &Option<JObj>) -> (r: bool)
    ensures
        r == same_joint(a, *b),
{
    match (&a, b) {
        (None, None) => true,
        (Some(x), Some(y)) => ptr_eq(&x.0, &y.0),
        _ => false,
    }
}

/// IEEE-754 single-precision NaN.
pub open spec fn is_nan_bits(x: u32) -> bool {
    x & 0x7F80_0000 == 0x7F80_0000 && x & 0x007F_FFFF != 0
}

/// `==` on the `f32`s with bit patterns `a` and `b`: no NaN equals
/// anything, the two zeros are equal, otherwise equal bits.
pub open spec fn f32_eq(a: u32, b: u32) -> bool {
    !is_nan_bits(a) && !is_nan_bits(b) && (a == b || (a & 0x7FFF_FFFF == 0 && b & 0x7FFF_FFFF == 0))
}

/// `==` on the `f32`s with bit patterns `a` and `b`.
pub fn f32_bits_eq(a: u32, b: u32) -> (r: bool)
    ensures
        r == f32_eq(a, b),
{
    let a_nan = (a & 0x7F80_0000) == 0x7F80_0000 && (a & 0x007F_FFFF) != 0;
    let b_nan = (b & 0x7F80_0000) == 0x7F80_0000 && (b & 0x007F_FFFF) != 0;
    !a_nan && !b_nan && (a == b || ((a & 0x7FFF_FFFF) == 0 && (b & 0x7FFF_FFFF) == 0))
}

// ---------------------------------------------------------------------
// Scene edits
// ---------------------------------------------------------------------

/// The edits of one joint: flag names, TRS (`f32` bits; short arrays are
/// padded with zeros) and the ordered ids of its children.
#[derive(Debug, Clone)]
pub struct JointEdit {
    pub id: String,
    pub flags: Vec<String>,
    pub translation: Vec<u32>,
    pub rotation: Vec<u32>,
    pub scale: Vec<u32>,
    pub children: Vec<String>,
    /// Informational; the children lists are what the rewire follows.
    pub parent: Option<String>,
}

/// An edit set: per-joint edits and the alias roots (name → joint id), in
/// order, with distinct names.
#[derive(Debug, Clone)]
pub struct SceneEdits {
    pub joints: Vec<JointEdit>,
    pub joint_aliases: Vec<(String, String)>,
}

/// The id the walk gives the `k`-th joint it meets.
pub open spec fn joint_id(k: nat) -> Seq<char> {
    "jobj_"@ + dec(k)
}

/// The id table: entry `i` of `ids` names joint slot `ids[i].1`, and
/// `seen` marks exactly the slots that have an entry.
pub open spec fn ids_cover(ids: Seq<(String, JObj)>, seen: Seq<bool>) -> bool {
    &&& forall|i: int| 0 <= i < ids.len() ==> (#[trigger] ids[i]).1.0 < seen.len() && seen[ids[i].1.0 as int]
    &&& forall|q: int| 0 <= q < seen.len() && #[trigger] seen[q] ==> exists|i: int| 0 <= i < ids.len() && ids[i].1.0 == q
    &&& forall|i: int, j: int| 0 <= i < j < ids.len() ==> (#[trigger] ids[i]).1.0 != (#[trigger] ids[j]).1.0
}

/// The walk's ids: entry `i` is called `jobj_i`.
pub open spec fn ids_numbered(ids: Seq<(String, JObj)>) -> bool {
    forall|i: int| 0 <= i < ids.len() ==> (#[trigger] ids[i]).0@ == joint_id(i as nat)
}

fn joint_id_exec(k: u32) -> (s: String)
    ensures
        s@ == joint_id(k as nat),
{
    let mut s = String::new();
    s.append("jobj_");
    push_dec(&mut s, k);
    s
}

/// Number the joints reachable from `j` through child and next links that
/// have no id yet, depth first: a joint, then its children chain.
fn emit_joint(pool: &StructPool, j: JObj, ids: &mut Vec<(String, JObj)>, seen: &mut Vec<bool>)
    requires
        pool.wf(),
        j.0 < pool.len(),
        old(seen)@.len() == pool.len(),
        pool.len() < u32::MAX,
        ids_cover(old(ids)@, old(seen)@),
        ids_numbered(old(ids)@),
    ensures
        final(seen)@.len() == pool.len(),
        ids_cover(final(ids)@, final(seen)@),
        ids_numbered(final(ids)@),
        final(seen)@[j.0 as int],
        count_false(final(seen)@) <= count_false(old(seen)@),
        forall|q: int| 0 <= q < pool.len() && old(seen)@[q] ==> #[trigger] final(seen)@[q],
        final(ids)@.len() >= old(ids)@.len(),
        final(ids)@.take(old(ids)@.len() as int) == old(ids)@,
    decreases count_false(old(seen)@),
{
    if seen[j.0] {
        return;
    }
    proof {
        lemma_ids_len_bound(ids@, seen@);
    }
    let id = joint_id_exec(ids.len() as u32);
    let ghost s0 = seen@;
    let ghost i0 = ids@;
    seen.set(j.0, true);
    ids.push((id, j));
    proof {
        lemma_count_false_flip(s0, seen@, j.0 as int);
        assert(ids@.take(i0.len() as int) =~= i0);
        assert forall|q: int| 0 <= q < seen@.len() && #[trigger] seen@[q] implies exists|i: int| 0 <= i < ids@.len() && ids@[i].1.0 == q by {
            if q == j.0 {
                assert(ids@[i0.len() as int].1.0 == q);
            } else {
                let i = choose|i: int| 0 <= i < i0.len() && i0[i].1.0 == q;
                assert(ids@[i].1.0 == q);
            }
        }
        assert forall|a: int, b: int| 0 <= a < b < ids@.len() implies (#[trigger] ids@[a]).1.0 != (#[trigger] ids@[b]).1.0 by {
            if b == i0.len() {
                assert(s0[ids@[a].1.0 as int]);
            } else {
                assert(ids@[a] == i0[a] && ids@[b] == i0[b]);
            }
        }
        assert forall|i: int| 0 <= i < ids@.len() implies (#[trigger] ids@[i]).0@ == joint_id(i as nat) by {
            if i < i0.len() {
                assert(ids@[i] == i0[i]);
            }
        }
    }
    if let Some(child) = j.child(pool) {
        let mut cur = Some(child);
        let mut steps: usize = 0;
        while steps < pool.len_exec()
            invariant
                pool.wf(),
                pool.len() < u32::MAX,
                seen@.len() == pool.len(),
                ids_cover(ids@, seen@),
                ids_numbered(ids@),
                j.0 < pool.len(),
                seen@[j.0 as int],
                count_false(seen@) < count_false(old(seen)@),
                forall|q: int| 0 <= q < pool.len() && old(seen)@[q] ==> #[trigger] seen@[q],
                ids@.len() >= old(ids)@.len(),
                ids@.take(old(ids)@.len() as int) == old(ids)@,
                cur matches Some(c) ==> c.0 < pool.len(),
            decreases pool.len() - steps,
        {
            let c = match cur {
                Some(c) => c,
                None => {
                    break;
                },
            };
            let ghost s1 = seen@;
            let ghost d1 = ids@;
            emit_joint(pool, c, ids, seen);
            proof {
                assert(s1[j.0 as int]);
                assert(seen@[j.0 as int]);
                assert(ids@.take(old(ids)@.len() as int) =~= ids@.take(d1.len() as int).take(old(ids)@.len() as int));
                assert forall|q: int| 0 <= q < pool.len() && old(seen)@[q] implies #[trigger] seen@[q] by {
                    assert(s1[q]);
                }
            }
            cur = c.next(pool);
            steps = steps + 1;
        }
    }
}

proof fn lemma_ids_len_bound(ids: Seq<(String, JObj)>, seen: Seq<bool>)
    requires
        ids_cover(ids, seen),
    ensures
        ids.len() <= seen.len(),
{
    assert(ids.len() <= seen.len()) by {
        let f = |i: int| ids[i].1.0 as int;
        let dom = Set::new(|i: int| 0 <= i < ids.len());
        let rng = Set::new(|q: int| 0 <= q < seen.len());
        vstd::set_lib::lemma_int_range(0, ids.len() as int);
        vstd::set_lib::lemma_int_range(0, seen.len() as int);
        assert(dom =~= vstd::set_lib::set_int_range(0, ids.len() as int));
        assert(rng =~= vstd::set_lib::set_int_range(0, seen.len() as int));
        assert(vstd::relations::injective_on(f, dom)) by {
            assert forall|a: int, b: int| dom.contains(a) && dom.contains(b) && #[trigger] f(a) == #[trigger] f(b) implies a == b by {
                if a < b {
                    assert(ids[a].1.0 != ids[b].1.0);
                } else if b < a {
                    assert(ids[b].1.0 != ids[a].1.0);
                }
            }
        }
        assert(dom.map(f).subset_of(rng));
        vstd::set_lib::lemma_map_size(dom, dom.map(f), f);
        vstd::set_lib::lemma_len_subset(dom.map(f), rng);
    }
}

/// The joint the id table gives `id`, if any (the first entry of that name).
pub open spec fn id_lookup(ids: Seq<(String, JObj)>, id: Seq<char>) -> Option<JObj>
    decreases ids.len(),
{
    if ids.len() == 0 {
        None
    } else if ids[0].0@ == id {
        Some(ids[0].1)
    } else {
        id_lookup(ids.drop_first(), id)
    }
}

fn lookup(ids: &Vec<(String, JObj)>, id: &str) -> (r: Option<JObj>)
    ensures
        r == id_lookup(ids@, id@),
{
    let mut i: usize = 0;
    proof {
        assert(ids@.skip(0) =~= ids@);
    }
    while i < ids.len()
        invariant
            i <= ids@.len(),
            id_lookup(ids@, id@) == id_lookup(ids@.skip(i as int), id@),
        decreases ids@.len() - i,
    {
        if str_eq(ids[i].0.as_str(), id) {
            return Some(ids[i].1);
        }
        proof {
            assert(ids@.skip(i as int).drop_first() =~= ids@.skip(i + 1));
        }
        i = i + 1;
    }
    None
}

/// Number the base scene's joints: the models of the first `scene_data`
/// root, then every other root whose name says it is a joint.
fn walk_base(dat: &Dat) -> (r: (Vec<(String, JObj)>, Vec<bool>))
    requires
        dat.wf(),
        dat.pool.len() < u32::MAX,
    ensures
        r.1@.len() == dat.pool.len(),
        ids_cover(r.0@, r.1@),
        ids_numbered(r.0@),
{
    let pool = &dat.pool;
    let mut ids: Vec<(String, JObj)> = Vec::new();
    let mut seen: Vec<bool> = vec![false; pool.len_exec()];
    if let Some(scene_root) = dat.scene_data() {
        let sobj = SObj(scene_root.data);
        let descs = sobj.jobj_descs(pool);
        let mut d: usize = 0;
        while d < descs.len()
            invariant
                pool.wf(),
                pool.len() < u32::MAX,
                seen@.len() == pool.len(),
                ids_cover(ids@, seen@),
                ids_numbered(ids@),
                forall|i: int| 0 <= i < descs@.len() ==> #[trigger] descs@[i].0 < pool.len(),
            decreases descs@.len() - d,
        {
            if let Some(rj) = descs[d].root_joint(pool) {
                emit_joint(pool, rj, &mut ids, &mut seen);
            }
            d = d + 1;
        }
    }
    let mut k: usize = 0;
    while k < dat.roots.len()
        invariant
            dat.wf(),
            pool == &dat.pool,
            pool.len() < u32::MAX,
            seen@.len() == pool.len(),
            ids_cover(ids@, seen@),
            ids_numbered(ids@),
        decreases dat.roots@.len() - k,
    {
        let r = &dat.roots[k];
        if !str_eq(r.name.as_str(), "scene_data") && looks_like_jobj_root(r.name.as_str()) {
            assert(dat.roots@[k as int].data < dat.pool.len());
            emit_joint(pool, JObj(r.data), &mut ids, &mut seen);
        }
        k = k + 1;
    }
    (ids, seen)
}

/// `id` is in the table `ids`, or is the non-empty id of one of the first
/// `k` joint edits.
pub open spec fn known_upto(ids: Seq<(String, JObj)>, edits: SceneEdits, k: int, id: Seq<char>) -> bool {
    ||| id_lookup(ids, id) is Some
    ||| id.len() != 0 && exists|m: int| 0 <= m < k && #[trigger] edits.joints@[m].id@ == id
}

/// `id` is in the table `ids` or is the non-empty id of a joint edit.
pub open spec fn known(ids: Seq<(String, JObj)>, edits: SceneEdits, id: Seq<char>) -> bool {
    known_upto(ids, edits, edits.joints@.len() as int, id)
}

/// Give every edited joint id that the table lacks a fresh default joint.
fn add_new_joints(pool: &mut StructPool, edits: &SceneEdits, ids: &mut Vec<(String, JObj)>) -> (added: u32)
    requires
        old(pool).wf(),
        edits.joints@.len() < u32::MAX,
        forall|i: int| 0 <= i < old(ids)@.len() ==> (#[trigger] old(ids)@[i]).1.0 < old(pool).len(),
    ensures
        added <= edits.joints@.len(),
        final(pool).wf(),
        final(pool).len() == old(pool).len() + added,
        forall|q: int| 0 <= q < old(pool).len() ==> #[trigger] final(pool).at(q) == old(pool).at(q),
        final(ids)@.len() == old(ids)@.len() + added,
        final(ids)@.take(old(ids)@.len() as int) == old(ids)@,
        forall|i: int| 0 <= i < final(ids)@.len() ==> (#[trigger] final(ids)@[i]).1.0 < final(pool).len(),
        forall|k: int|
            0 <= k < edits.joints@.len() && #[trigger] edits.joints@[k].id@.len() != 0 ==> id_lookup(
                final(ids)@,
                edits.joints@[k].id@,
            ) is Some,
        forall|x: Seq<char>| #[trigger] id_lookup(final(ids)@, x) is Some <==> known(old(ids)@, *edits, x),
{
    let mut added: u32 = 0;
    let mut k: usize = 0;
    let ghost ids0 = ids@;
    while k < edits.joints.len()
        invariant
            k <= edits.joints@.len(),
            edits.joints@.len() < u32::MAX,
            added <= k,
            pool.wf(),
            pool.len() == old(pool).len() + added,
            forall|q: int| 0 <= q < old(pool).len() ==> #[trigger] pool.at(q) == old(pool).at(q),
            ids0 == old(ids)@,
            ids@.len() == ids0.len() + added,
            ids@.take(ids0.len() as int) == ids0,
            forall|i: int| 0 <= i < ids@.len() ==> (#[trigger] ids@[i]).1.0 < pool.len(),
            forall|j: int|
                0 <= j < k && #[trigger] edits.joints@[j].id@.len() != 0 ==> id_lookup(ids@, edits.joints@[j].id@) is Some,
            forall|x: Seq<char>| #[trigger] id_lookup(ids@, x) is Some <==> known_upto(ids0, *edits, k as int, x),
        decreases edits.joints@.len() - k,
    {
        let jd = &edits.joints[k];
        let ghost ib = ids@;
        if jd.id.as_str().unicode_len() != 0 && lookup(ids, jd.id.as_str()).is_none() {
            let ghost p0 = *pool;
            let ghost i0 = ids@;
            let nj = JObj::allocate_default(pool);
            let name = jd.id.clone();
            ids.push((name, nj));
            proof {
                assert(ids@.take(ids0.len() as int) =~= i0.take(ids0.len() as int));
                assert forall|j: int| 0 <= j < k + 1 && #[trigger] edits.joints@[j].id@.len() != 0 implies id_lookup(ids@, edits.joints@[j].id@) is Some by {
                    lemma_lookup_push(i0, (name, nj), edits.joints@[j].id@);
                }
                assert forall|q: int| 0 <= q < old(pool).len() implies #[trigger] pool.at(q) == old(pool).at(q) by {
                    assert(pool.at(q) == p0.at(q));
                }
            }
            added = added + 1;
        } else {
            proof {
                if edits.joints@[k as int].id@.len() != 0 {
                    assert(id_lookup(ids@, edits.joints@[k as int].id@) is Some);
                }
            }
        }
        proof {
            assert forall|x: Seq<char>| #[trigger] id_lookup(ids@, x) is Some <==> known_upto(ids0, *edits, k + 1, x) by {
                if ids@ != ib {
                    lemma_lookup_push(ib, ids@.last(), x);
                    lemma_lookup_pushed(ib, ids@.last(), x);
                    assert(ids@ == ib.push(ids@.last()));
                }
                if known_upto(ids0, *edits, k + 1, x) && !known_upto(ids0, *edits, k as int, x) {
                    assert(edits.joints@[k as int].id@ == x);
                }
                if known_upto(ids0, *edits, k as int, x) && id_lookup(ids0, x) is None {
                    let m = choose|m: int| 0 <= m < k && #[trigger] edits.joints@[m].id@ == x;
                    assert(0 <= m < k + 1);
                }
                if ids@ != ib && ids@.last().0@ == x {
                    assert(edits.joints@[k as int].id@ == x);
                }
            }
        }
        k = k + 1;
    }
    added
}

/// A found id stays found once more entries are appended.
proof fn lemma_lookup_push(ids: Seq<(String, JObj)>, e: (String, JObj), id: Seq<char>)
    ensures
        id_lookup(ids, id) is Some ==> id_lookup(ids.push(e), id) == id_lookup(ids, id),
        e.0@ == id ==> id_lookup(ids.push(e), id) is Some,
    decreases ids.len(),
{
    if ids.len() > 0 {
        assert(ids.push(e).drop_first() =~= ids.drop_first().push(e));
        assert(ids.push(e)[0] == ids[0]);
        lemma_lookup_push(ids.drop_first(), e, id);
    } else {
        assert(ids.push(e)[0] == e);
        assert(ids.push(e).drop_first() =~= Seq::<(String, JObj)>::empty());
    }
}

/// An id found after appending `e` was found before or is `e`'s.
proof fn lemma_lookup_pushed(ids: Seq<(String, JObj)>, e: (String, JObj), id: Seq<char>)
    ensures
        id_lookup(ids.push(e), id) is Some ==> id_lookup(ids, id) is Some || e.0@ == id,
    decreases ids.len(),
{
    let d = ids.push(e);
    if ids.len() == 0 {
        assert(d.drop_first() =~= Seq::<(String, JObj)>::empty());
        assert(d[0] == e);
    } else {
        assert(d.drop_first() =~= ids.drop_first().push(e));
        assert(d[0] == ids[0]);
        lemma_lookup_pushed(ids.drop_first(), e, id);
    }
}

/// Unicode `White_Space`, as `char::is_whitespace` has it.
pub open spec fn is_ws(c: char) -> bool {
    ('\t' <= c <= '\r') || c == ' ' || c == '\u{85}' || c == '\u{A0}' || c == '\u{1680}' || ('\u{2000}'
        <= c <= '\u{200A}') || c == '\u{2028}' || c == '\u{2029}' || c == '\u{202F}' || c == '\u{205F}'
        || c == '\u{3000}'
}

/// Nothing but whitespace (what trims to the empty string).
pub open spec fn blank(s: Seq<char>) -> bool {
    forall|i: int| 0 <= i < s.len() ==> is_ws(#[trigger] s[i])
}

fn is_blank(s: &str) -> (b: bool)
    ensures
        b == blank(s@),
{
    let n = s.unicode_len();
    let mut i: usize = 0;
    while i < n
        invariant
            n == s@.len(),
            i <= n,
            forall|j: int| 0 <= j < i ==> is_ws(#[trigger] s@[j]),
        decreases n - i,
    {
        let c = s.get_char(i);
        let ws = ('\t' <= c && c <= '\r') || c == ' ' || c == '\u{85}' || c == '\u{A0}' || c == '\u{1680}'
            || ('\u{2000}' <= c && c <= '\u{200A}') || c == '\u{2028}' || c == '\u{2029}' || c == '\u{202F}'
            || c == '\u{205F}' || c == '\u{3000}';
        if !ws {
            assert(!is_ws(s@[i as int]));
            return false;
        }
        i = i + 1;
    }
    true
}

/// No two aliases share a name.
pub open spec fn distinct_aliases(aliases: Seq<(String, String)>) -> bool {
    forall|a: int, b: int| 0 <= a < b < aliases.len() ==> (#[trigger] aliases[a]).0@ != (#[trigger] aliases[b]).0@
}

/// Some alias is called `name`.
pub open spec fn alias_named(aliases: Seq<(String, String)>, name: Seq<char>) -> bool {
    exists|k: int| 0 <= k < aliases.len() && (#[trigger] aliases[k]).0@ == name
}

fn has_alias(aliases: &Vec<(String, String)>, name: &str) -> (b: bool)
    ensures
        b == alias_named(aliases@, name@),
{
    let mut k: usize = 0;
    while k < aliases.len()
        invariant
            k <= aliases@.len(),
            forall|j: int| 0 <= j < k ==> (#[trigger] aliases@[j]).0@ != name@,
        decreases aliases@.len() - k,
    {
        if str_eq(aliases[k].0.as_str(), name) {
            return true;
        }
        k = k + 1;
    }
    false
}

/// The last of the first `n` roots called `name`.
fn find_last_root(roots: &Vec<RootNode>, n: usize, name: &str) -> (r: Option<usize>)
    requires
        n <= roots@.len(),
    ensures
        r matches Some(i) ==> i < n && roots@[i as int].name@ == name@ && forall|j: int|
            i < j < n ==> (#[trigger] roots@[j]).name@ != name@,
        r is None ==> forall|j: int| 0 <= j < n ==> (#[trigger] roots@[j]).name@ != name@,
{
    let mut i: usize = n;
    while i > 0
        invariant
            i <= n,
            n <= roots@.len(),
            forall|j: int| i <= j < n ==> (#[trigger] roots@[j]).name@ != name@,
        decreases i,
    {
        if str_eq(roots[i - 1].name.as_str(), name) {
            return Some(i - 1);
        }
        i = i - 1;
    }
    None
}

/// The root a joint-named root, not named by an alias, is dropped.
pub open spec fn stale_root(aliases: Seq<(String, String)>, name: Seq<char>) -> bool {
    name != "scene_data"@ && jobj_root_name(name) && !alias_named(aliases, name)
}

/// The alias whose check fails first, if any: a blank name or an unknown
/// joint id.
pub open spec fn alias_fault(aliases: Seq<(String, String)>, ids: Seq<(String, JObj)>, k: int) -> bool {
    blank(aliases[k].0@) || id_lookup(ids, aliases[k].1@) is None
}

fn alias_error(name: &str, target_id: &str) -> (e: HsdError)
    ensures
        e matches HsdError::MalformedText { offset, context } && offset == 0 && context@ == "alias '"@ + name@
            + "' references unknown joint id '"@ + target_id@ + "'"@,
{
    let mut s = String::new();
    s.append("alias '");
    s.append(name);
    s.append("' references unknown joint id '");
    s.append(target_id);
    s.append("'");
    HsdError::MalformedText { offset: 0, context: s }
}

/// Point every alias root at its joint (repointing the last root of that
/// name, or adding one), then drop the joint-named roots no alias names.
/// Returns (added, repointed, removed).
fn apply_aliases(dat: &mut Dat, aliases: &Vec<(String, String)>, ids: &Vec<(String, JObj)>) -> (r: Result<(u32, u32, u32)>)
    requires
        old(dat).wf(),
        forall|i: int| 0 <= i < ids@.len() ==> (#[trigger] ids@[i]).1.0 < old(dat).pool.len(),
        aliases@.len() + old(dat).roots@.len() < u32::MAX,
        distinct_aliases(aliases@),
    ensures
        final(dat).wf(),
        final(dat).pool == old(dat).pool,
        final(dat).references == old(dat).references,
        final(dat).struct_order == old(dat).struct_order,
        final(dat).version == old(dat).version,
        r is Err <==> exists|k: int| 0 <= k < aliases@.len() && alias_fault(aliases@, ids@, k),
        r matches Ok((a, rp, rm)) ==> a + rp <= aliases@.len(),
        r is Ok ==> forall|i: int| 0 <= i < final(dat).roots@.len() ==> !stale_root(aliases@, (#[trigger] final(dat).roots@[i]).name@),
        r is Ok ==> forall|k: int| 0 <= k < aliases@.len() ==> exists|i: int|
            0 <= i < final(dat).roots@.len() && (#[trigger] final(dat).roots@[i]).name@ == (#[trigger] aliases@[k]).0@
                && id_lookup(ids@, aliases@[k].1@) == Some(JObj(final(dat).roots@[i].data)),
{
    let orig_len = dat.roots.len();
    let mut additions: Vec<RootNode> = Vec::new();
    let mut added: u32 = 0;
    let mut repointed: u32 = 0;
    let mut k: usize = 0;
    while k < aliases.len()
        invariant
            k <= aliases@.len(),
            dat.wf(),
            dat.pool == old(dat).pool,
            dat.version == old(dat).version,
            dat.references == old(dat).references,
            dat.struct_order == old(dat).struct_order,
            dat.roots@.len() == orig_len,
            orig_len == old(dat).roots@.len(),
            aliases@.len() + orig_len < u32::MAX,
            distinct_aliases(aliases@),
            added + repointed <= k,
            additions@.len() == added,
            forall|i: int| 0 <= i < ids@.len() ==> (#[trigger] ids@[i]).1.0 < dat.pool.len(),
            forall|i: int| 0 <= i < additions@.len() ==> (#[trigger] additions@[i]).data < dat.pool.len(),
            forall|j: int| 0 <= j < k ==> !alias_fault(aliases@, ids@, j),
            forall|j: int| 0 <= j < k ==> alias_placed(dat.roots@ + additions@, aliases@, ids@, j),
        decreases aliases@.len() - k,
    {
        let name = aliases[k].0.as_str();
        let target_id = aliases[k].1.as_str();
        if is_blank(name) {
            proof {
                assert(alias_fault(aliases@, ids@, k as int));
            }
            return Err(HsdError::malformed(0, "alias name empty"));
        }
        let target = match lookup(ids, target_id) {
            Some(t) => t,
            None => {
                proof {
                    assert(alias_fault(aliases@, ids@, k as int));
                }
                return Err(alias_error(name, target_id));
            },
        };
        proof {
            lemma_lookup_in(ids@, target_id@);
        }
        let ghost all0 = dat.roots@ + additions@;
        match find_last_root(&dat.roots, orig_len, name) {
            Some(i) => {
                if !ptr_eq(&dat.roots[i].data, &target.0) {
                    let nm = dat.roots[i].name.clone();
                    dat.roots.set(i, RootNode { name: nm, data: target.0 });
                    repointed = repointed + 1;
                }
                proof {
                    let all1 = dat.roots@ + additions@;
                    assert(all1[i as int].name@ == name@ && all1[i as int].data == target.0);
                    assert(alias_placed_at(all1, aliases@, ids@, k as int, i as int));
                    assert(alias_placed(all1, aliases@, ids@, k as int));
                    assert forall|j: int| 0 <= j < k implies alias_placed(all1, aliases@, ids@, j) by {
                        lemma_alias_placed_kept(all0, all1, aliases@, ids@, j, i as int, name@);
                    }
                }
            },
            None => {
                let ghost a0 = additions@;
                additions.push(RootNode { name: aliases[k].0.clone(), data: target.0 });
                added = added + 1;
                proof {
                    let all1 = dat.roots@ + additions@;
                    assert(all1 =~= all0.push(additions@.last()));
                    assert(all1[all1.len() - 1].name@ == name@);
                    assert(alias_placed_at(all1, aliases@, ids@, k as int, all1.len() - 1));
                    assert(alias_placed(all1, aliases@, ids@, k as int));
                    assert forall|j: int| 0 <= j < k implies alias_placed(all1, aliases@, ids@, j) by {
                        assert(alias_placed(all0, aliases@, ids@, j));
                        let i2 = choose|i2: int| 0 <= i2 < all0.len() && #[trigger] alias_placed_at(all0, aliases@, ids@, j, i2);
                        assert(all1[i2] == all0[i2]);
                        assert(alias_placed_at(all1, aliases@, ids@, j, i2));
                    }
                    assert forall|i2: int| 0 <= i2 < additions@.len() implies (#[trigger] additions@[i2]).data < dat.pool.len() by {
                        if i2 < a0.len() {
                            assert(additions@[i2] == a0[i2]);
                        }
                    }
                }
            },
        }
        k = k + 1;
    }
    let ghost all = dat.roots@ + additions@;
    dat.roots.append(&mut additions);
    proof {
        assert(dat.roots@ =~= all);
    }
    let mut new_roots: Vec<RootNode> = Vec::new();
    let mut removed: u32 = 0;
    let mut i: usize = 0;
    let n_all = dat.roots.len();
    while i < n_all
        invariant
            n_all == dat.roots@.len(),
            i <= n_all,
            dat.wf(),
            dat.pool == old(dat).pool,
            dat.version == old(dat).version,
            n_all <= aliases@.len() + orig_len,
            aliases@.len() + orig_len < u32::MAX,
            new_roots@.len() + removed == i,
            forall|j: int| 0 <= j < new_roots@.len() ==> (#[trigger] new_roots@[j]).data < dat.pool.len(),
            forall|j: int| 0 <= j < new_roots@.len() ==> !stale_root(aliases@, (#[trigger] new_roots@[j]).name@),
            forall|j: int| 0 <= j < aliases@.len() ==> alias_placed(dat.roots@, aliases@, ids@, j),
            forall|j: int| 0 <= j < aliases@.len() ==> !alias_fault(aliases@, ids@, j),
            forall|j: int, r: int| #![trigger alias_placed_at(dat.roots@, aliases@, ids@, j, r)] 0 <= j < aliases@.len() && 0 <= r < i && alias_placed_at(dat.roots@, aliases@, ids@, j, r)
                ==> exists|q: int| 0 <= q < new_roots@.len() && (#[trigger] new_roots@[q]).name@ == aliases@[j].0@
                    && id_lookup(ids@, aliases@[j].1@) == Some(JObj(new_roots@[q].data)),
        decreases n_all - i,
    {
        let r = &dat.roots[i];
        let drop = !str_eq(r.name.as_str(), "scene_data") && looks_like_jobj_root(r.name.as_str())
            && !has_alias(aliases, r.name.as_str());
        let ghost nr0 = new_roots@;
        if drop {
            removed = removed + 1;
        } else {
            new_roots.push(RootNode { name: r.name.clone(), data: r.data });
        }
        proof {
            assert forall|j: int| 0 <= j < new_roots@.len() implies (#[trigger] new_roots@[j]).data < dat.pool.len() && !stale_root(aliases@, new_roots@[j].name@) by {
                if j < nr0.len() {
                    assert(new_roots@[j] == nr0[j]);
                }
            }
            assert forall|j: int, r2: int| 0 <= j < aliases@.len() && 0 <= r2 < i + 1 && alias_placed_at(dat.roots@, aliases@, ids@, j, r2)
                implies exists|q: int| 0 <= q < new_roots@.len() && (#[trigger] new_roots@[q]).name@ == aliases@[j].0@
                    && id_lookup(ids@, aliases@[j].1@) == Some(JObj(new_roots@[q].data)) by {
                if r2 < i {
                    let q = choose|q: int| 0 <= q < nr0.len() && (#[trigger] nr0[q]).name@ == aliases@[j].0@
                        && id_lookup(ids@, aliases@[j].1@) == Some(JObj(nr0[q].data));
                    assert(new_roots@[q] == nr0[q]);
                } else {
                    assert(alias_named(aliases@, dat.roots@[i as int].name@)) by {
                        assert(aliases@[j].0@ == dat.roots@[i as int].name@);
                    }
                    assert(!drop);
                    assert(new_roots@[nr0.len() as int].name@ == aliases@[j].0@);
                }
            }
        }
        i = i + 1;
    }
    proof {
        assert forall|k2: int| 0 <= k2 < aliases@.len() implies exists|q: int|
            0 <= q < new_roots@.len() && (#[trigger] new_roots@[q]).name@ == (#[trigger] aliases@[k2]).0@
                && id_lookup(ids@, aliases@[k2].1@) == Some(JObj(new_roots@[q].data)) by {
            assert(alias_placed(dat.roots@, aliases@, ids@, k2));
            let r2 = choose|r2: int| 0 <= r2 < dat.roots@.len() && #[trigger] alias_placed_at(dat.roots@, aliases@, ids@, k2, r2);
            assert(alias_placed_at(dat.roots@, aliases@, ids@, k2, r2));
        }
    }
    dat.roots = new_roots;
    Ok((added, repointed, removed))
}

/// Root `i` of `roots` carries alias `k`: its name, pointing at the alias's
/// joint.
pub open spec fn alias_placed_at(roots: Seq<RootNode>, aliases: Seq<(String, String)>, ids: Seq<(String, JObj)>, k: int, i: int) -> bool {
    roots[i].name@ == aliases[k].0@ && id_lookup(ids, aliases[k].1@) == Some(JObj(roots[i].data))
}

/// Some root carries alias `k`.
pub open spec fn alias_placed(roots: Seq<RootNode>, aliases: Seq<(String, String)>, ids: Seq<(String, JObj)>, k: int) -> bool {
    exists|i: int| 0 <= i < roots.len() && #[trigger] alias_placed_at(roots, aliases, ids, k, i)
}

proof fn lemma_alias_placed_kept(
    all0: Seq<RootNode>,
    all1: Seq<RootNode>,
    aliases: Seq<(String, String)>,
    ids: Seq<(String, JObj)>,
    j: int,
    i: int,
    name: Seq<char>,
)
    requires
        alias_placed(all0, aliases, ids, j),
        all1.len() == all0.len(),
        0 <= i < all0.len(),
        all0[i].name@ == name,
        all1[i].name@ == name,
        forall|q: int| 0 <= q < all0.len() && q != i ==> all1[q] == all0[q],
        aliases[j].0@ == name ==> id_lookup(ids, aliases[j].1@) == Some(JObj(all1[i].data)),
    ensures
        alias_placed(all1, aliases, ids, j),
{
    let q = choose|q: int| 0 <= q < all0.len() && #[trigger] alias_placed_at(all0, aliases, ids, j, q);
    if q != i {
        assert(all1[q] == all0[q]);
        assert(alias_placed_at(all1, aliases, ids, j, q));
    } else {
        assert(alias_placed_at(all1, aliases, ids, j, i));
    }
}

/// A found id names one of the table's joints.
proof fn lemma_lookup_in(ids: Seq<(String, JObj)>, id: Seq<char>)
    ensures
        id_lookup(ids, id) matches Some(j) ==> exists|i: int| 0 <= i < ids.len() && ids[i].1 == j,
    decreases ids.len(),
{
    if ids.len() > 0 && ids[0].0@ != id {
        lemma_lookup_in(ids.drop_first(), id);
        if let Some(j) = id_lookup(ids.drop_first(), id) {
            let i = choose|i: int| 0 <= i < ids.drop_first().len() && ids.drop_first()[i].1 == j;
            assert(ids[i + 1].1 == j);
        }
    }
}

// ---------------------------------------------------------------------
// Flags and TRS
// ---------------------------------------------------------------------

/// The `JOBJ_FLAG` bits the names stand for, or `None` when one is unknown.
pub open spec fn flag_bits(names: Seq<String>) -> Option<u32>
    decreases names.len(),
{
    if names.len() == 0 {
        Some(0)
    } else {
        match (flag_bits(names.drop_last()), jobj_flag_of_name(names.last()@)) {
            (Some(a), Some(b)) => Some(a | b),
            _ => None,
        }
    }
}

/// The refusal of an unknown flag name on joint `id`.
pub open spec fn unknown_flag_text(id: Seq<char>, name: Seq<char>) -> Seq<char> {
    "joint "@ + id + ": unknown JOBJ_FLAG '"@ + name + "'"@
}

/// The bits of a joint edit's flag names; an unknown name is refused.
fn edit_flags(edit: &JointEdit) -> (r: Result<u32>)
    ensures
        flag_bits(edit.flags@) matches Some(b) ==> r == Ok::<u32, HsdError>(b),
        flag_bits(edit.flags@) is None ==> exists|k: int|
            0 <= k < edit.flags@.len() && jobj_flag_of_name((#[trigger] edit.flags@[k])@) is None && (r matches Err(
                HsdError::MalformedText { offset, context },
            ) && offset == 0 && context@ == unknown_flag_text(edit.id@, edit.flags@[k]@)),
{
    let mut new_bits: u32 = 0;
    let mut i: usize = 0;
    while i < edit.flags.len()
        invariant
            i <= edit.flags@.len(),
            flag_bits(edit.flags@.take(i as int)) == Some(new_bits),
        decreases edit.flags@.len() - i,
    {
        let name = edit.flags[i].as_str();
        proof {
            assert(edit.flags@.take(i + 1).drop_last() =~= edit.flags@.take(i as int));
        }
        match jobj_flag_from_name(name) {
            Some(f) => {
                new_bits = new_bits | f.bits();
            },
            None => {
                let mut t = String::new();
                t.append("joint ");
                t.append(edit.id.as_str());
                t.append(": unknown JOBJ_FLAG '");
                t.append(name);
                t.append("'");
                proof {
                    lemma_flag_bits_none_extends(edit.flags@, (i + 1) as nat);
                }
                return Err(HsdError::MalformedText { offset: 0, context: t });
            },
        }
        i = i + 1;
    }
    proof {
        assert(edit.flags@.take(edit.flags@.len() as int) =~= edit.flags@);
    }
    Ok(new_bits)
}

proof fn lemma_flag_bits_none_extends(names: Seq<String>, n: nat)
    requires
        n <= names.len(),
        flag_bits(names.take(n as int)) is None,
    ensures
        flag_bits(names) is None,
    decreases names.len() - n,
{
    if n < names.len() {
        assert(names.take(n + 1 as int).drop_last() =~= names.take(n as int));
        lemma_flag_bits_none_extends(names, n + 1);
    } else {
        assert(names.take(n as int) =~= names);
    }
}

/// The TRS fields of a joint as (offset, value) pairs, in the order they
/// are compared: translation, rotation, scale.
pub open spec fn trs_pairs(t: [u32; 3], r: [u32; 3], s: [u32; 3]) -> Seq<(u32, u32)> {
    seq![
        (0x2Cu32, t[0]),
        (0x30u32, t[1]),
        (0x34u32, t[2]),
        (0x14u32, r[0]),
        (0x18u32, r[1]),
        (0x1Cu32, r[2]),
        (0x20u32, s[0]),
        (0x24u32, s[1]),
        (0x28u32, s[2]),
    ]
}

/// Comparing the stored TRS with the pairs, in order, stopping at the
/// first difference: whether one differs, or the offset of the first read
/// that falls past the struct.
pub open spec fn trs_scan(b: Seq<u8>, pairs: Seq<(u32, u32)>) -> core::result::Result<bool, u32>
    decreases pairs.len(),
{
    if pairs.len() == 0 {
        Ok(false)
    } else if pairs[0].0 + 4 > b.len() {
        Err(pairs[0].0)
    } else if !f32_eq(be32(b, pairs[0].0 as int), pairs[0].1) {
        Ok(true)
    } else {
        trs_scan(b, pairs.drop_first())
    }
}

/// The joint bytes after the nine TRS fields are written (grown to a
/// whole joint first).
pub open spec fn trs_written(b: Seq<u8>, pairs: Seq<(u32, u32)>) -> Seq<u8>
    decreases pairs.len(),
{
    if pairs.len() == 0 {
        grown(b, 0x40)
    } else {
        splice(trs_written(b, pairs.drop_last()), pairs.last().0 as int, be32_bytes(pairs.last().1))
    }
}

/// The joint bytes after its flags step: the new flags written (to a grown
/// joint) when they differ.
pub open spec fn flags_written(b: Seq<u8>, old_bits: u32, bits: u32) -> Seq<u8> {
    if old_bits != bits {
        splice(grown(b, 0x40), 4, be32_bytes(bits))
    } else {
        b
    }
}

/// The nine TRS fields of joint bytes `b` hold translation `t` at
/// 0x2C/0x30/0x34, rotation `r` at 0x14/0x18/0x1C and scale `s` at
/// 0x20/0x24/0x28.
pub open spec fn trs_stored(b: Seq<u8>, t: [u32; 3], r: [u32; 3], s: [u32; 3]) -> bool {
    &&& be32(b, 0x2C) == t[0] && be32(b, 0x30) == t[1] && be32(b, 0x34) == t[2]
    &&& be32(b, 0x14) == r[0] && be32(b, 0x18) == r[1] && be32(b, 0x1C) == r[2]
    &&& be32(b, 0x20) == s[0] && be32(b, 0x24) == s[1] && be32(b, 0x28) == s[2]
}

/// As `trs_stored`, with each field only equal as an `f32`.
pub open spec fn trs_equal(b: Seq<u8>, t: [u32; 3], r: [u32; 3], s: [u32; 3]) -> bool {
    &&& f32_eq(be32(b, 0x2C), t[0]) && f32_eq(be32(b, 0x30), t[1]) && f32_eq(be32(b, 0x34), t[2])
    &&& f32_eq(be32(b, 0x14), r[0]) && f32_eq(be32(b, 0x18), r[1]) && f32_eq(be32(b, 0x1C), r[2])
    &&& f32_eq(be32(b, 0x20), s[0]) && f32_eq(be32(b, 0x24), s[1]) && f32_eq(be32(b, 0x28), s[2])
}

/// Field offsets that lie in a whole joint, four bytes apart at least.
pub open spec fn fields_apart(pairs: Seq<(u32, u32)>) -> bool {
    &&& forall|k: int| 0 <= k < pairs.len() ==> #[trigger] pairs[k].0 % 4 == 0 && pairs[k].0 + 4 <= 0x40
    &&& forall|k1: int, k2: int| 0 <= k1 < k2 < pairs.len() ==> #[trigger] pairs[k1].0 != #[trigger] pairs[k2].0
}

proof fn lemma_trs_written_len(b: Seq<u8>, pairs: Seq<(u32, u32)>)
    requires
        fields_apart(pairs),
    ensures
        trs_written(b, pairs).len() == grown(b, 0x40).len(),
        trs_written(b, pairs).len() >= 0x40,
    decreases pairs.len(),
{
    if pairs.len() > 0 {
        let p = pairs.drop_last();
        assert(fields_apart(p)) by {
            assert forall|k1: int, k2: int| 0 <= k1 < k2 < p.len() implies #[trigger] p[k1].0 != #[trigger] p[k2].0 by {
                assert(p[k1] == pairs[k1] && p[k2] == pairs[k2]);
            }
            assert forall|k: int| 0 <= k < p.len() implies #[trigger] p[k].0 % 4 == 0 && p[k].0 + 4 <= 0x40 by {
                assert(p[k] == pairs[k]);
            }
        }
        lemma_trs_written_len(b, p);
        assert(pairs[pairs.len() - 1].0 + 4 <= 0x40);
        crate::be::lemma_read_after_write32(trs_written(b, p), pairs.last().0 as int, pairs.last().1);
    } else {
        assert(grown(b, 0x40).len() >= 0x40);
    }
}

/// Each field written by `trs_written` reads back as its value.
proof fn lemma_trs_written_reads(b: Seq<u8>, pairs: Seq<(u32, u32)>, i: int)
    requires
        fields_apart(pairs),
        0 <= i < pairs.len(),
    ensures
        be32(trs_written(b, pairs), pairs[i].0 as int) == pairs[i].1,
    decreases pairs.len(),
{
    let p = pairs.drop_last();
    assert(fields_apart(p)) by {
        assert forall|k1: int, k2: int| 0 <= k1 < k2 < p.len() implies #[trigger] p[k1].0 != #[trigger] p[k2].0 by {
            assert(p[k1] == pairs[k1] && p[k2] == pairs[k2]);
        }
        assert forall|k: int| 0 <= k < p.len() implies #[trigger] p[k].0 % 4 == 0 && p[k].0 + 4 <= 0x40 by {
            assert(p[k] == pairs[k]);
        }
    }
    lemma_trs_written_len(b, p);
    let last = pairs.last();
    assert(pairs[pairs.len() - 1] == last);
    assert(last.0 % 4 == 0 && last.0 + 4 <= 0x40);
    if i == pairs.len() - 1 {
        crate::be::lemma_read_after_write32(trs_written(b, p), last.0 as int, last.1);
    } else {
        assert(p[i] == pairs[i]);
        lemma_trs_written_reads(b, p, i);
        assert(pairs[i].0 != last.0);
        assert(pairs[i].0 % 4 == 0 && pairs[i].0 + 4 <= 0x40);
        crate::writer::lemma_be32_frame(trs_written(b, p), last.0 as int, last.1, pairs[i].0 as int);
    }
}

/// A scan that finds no difference saw every field equal as an `f32`.
proof fn lemma_trs_scan_equal(b: Seq<u8>, pairs: Seq<(u32, u32)>, i: int)
    requires
        trs_scan(b, pairs) == Ok::<bool, u32>(false),
        0 <= i < pairs.len(),
    ensures
        f32_eq(be32(b, pairs[i].0 as int), pairs[i].1),
    decreases pairs.len(),
{
    if i > 0 {
        assert(pairs.drop_first()[i - 1] == pairs[i]);
        lemma_trs_scan_equal(b, pairs.drop_first(), i - 1);
    }
}

/// Writing the TRS of a joint puts translation `t` at 0x2C/0x30/0x34,
/// rotation `r` at 0x14/0x18/0x1C and scale `s` at 0x20/0x24/0x28.
pub proof fn law_trs_write_places_fields(b: Seq<u8>, t: [u32; 3], r: [u32; 3], s: [u32; 3])
    ensures
        trs_stored(trs_written(b, trs_pairs(t, r, s)), t, r, s),
{
    let pairs = trs_pairs(t, r, s);
    assert(fields_apart(pairs));
    assert forall|i: int| 0 <= i < 9 implies be32(trs_written(b, pairs), pairs[i].0 as int) == pairs[i].1 by {
        lemma_trs_written_reads(b, pairs, i);
    }
    assert(pairs[0] == (0x2Cu32, t[0]) && pairs[1] == (0x30u32, t[1]) && pairs[2] == (0x34u32, t[2]));
    assert(pairs[3] == (0x14u32, r[0]) && pairs[4] == (0x18u32, r[1]) && pairs[5] == (0x1Cu32, r[2]));
    assert(pairs[6] == (0x20u32, s[0]) && pairs[7] == (0x24u32, s[1]) && pairs[8] == (0x28u32, s[2]));
}

/// A TRS scan that finds no difference saw translation `t`, rotation `r`
/// and scale `s` at their offsets, equal as `f32`s.
pub proof fn law_trs_scan_unmoved(b: Seq<u8>, t: [u32; 3], r: [u32; 3], s: [u32; 3])
    requires
        trs_scan(b, trs_pairs(t, r, s)) == Ok::<bool, u32>(false),
    ensures
        trs_equal(b, t, r, s),
{
    let pairs = trs_pairs(t, r, s);
    assert forall|i: int| 0 <= i < 9 implies f32_eq(be32(b, pairs[i].0 as int), pairs[i].1) by {
        lemma_trs_scan_equal(b, pairs, i);
    }
    assert(pairs[0] == (0x2Cu32, t[0]) && pairs[1] == (0x30u32, t[1]) && pairs[2] == (0x34u32, t[2]));
    assert(pairs[3] == (0x14u32, r[0]) && pairs[4] == (0x18u32, r[1]) && pairs[5] == (0x1Cu32, r[2]));
    assert(pairs[6] == (0x20u32, s[0]) && pairs[7] == (0x24u32, s[1]) && pairs[8] == (0x28u32, s[2]));
}

/// Apply one joint's flags and TRS: each written only when it differs
/// (TRS compared as `f32`s).  Returns whether the flags and the TRS
/// changed.
#[verifier::spinoff_prover]
fn apply_joint_edit(pool: &mut StructPool, j: JObj, edit: &JointEdit) -> (r: Result<(bool, bool)>)
    requires
        old(pool).wf(),
        j.0 < old(pool).len(),
    ensures
        final(pool).wf(),
        final(pool).same_except(&old(pool), j.0 as int),
        flag_bits(edit.flags@) is None ==> r is Err && *final(pool) == *old(pool),
        flag_bits(edit.flags@) matches Some(bits) ==> match old(pool).at(j.0 as int).u32_field(4) {
            Err(e) => r == Err::<(bool, bool), HsdError>(e) && *final(pool) == *old(pool),
            Ok(cur) => {
                let b1 = flags_written(old(pool).at(j.0 as int).bytes(), cur, bits);
                let pairs = trs_pairs(pad3_of(edit.translation@), pad3_of(edit.rotation@), pad3_of(edit.scale@));
                match trs_scan(b1, pairs) {
                    Err(off) => r == Err::<(bool, bool), HsdError>(
                        HsdError::StructOob { at: off, requested: 4, len: b1.len() as u32 },
                    ) && final(pool).at(j.0 as int).bytes() == b1,
                    Ok(moved) => r == Ok::<(bool, bool), HsdError>((cur != bits, moved))
                        && final(pool).at(j.0 as int).bytes() == if moved {
                        trs_written(b1, pairs)
                    } else {
                        b1
                    },
                }
            },
        },
        r matches Ok((fc, moved)) ==> (moved ==> trs_stored(
            final(pool).at(j.0 as int).bytes(),
            pad3_of(edit.translation@),
            pad3_of(edit.rotation@),
            pad3_of(edit.scale@),
        )) && (!moved ==> trs_equal(
            final(pool).at(j.0 as int).bytes(),
            pad3_of(edit.translation@),
            pad3_of(edit.rotation@),
            pad3_of(edit.scale@),
        )),
{
    let bits = edit_flags(edit)?;
    let cur = j.flags(pool)?;
    let mut flags_changed = false;
    if cur.0 != bits {
        let _ = j.set_flags(pool, JObjFlag(bits));
        flags_changed = true;
    }
    let ghost p1 = *pool;
    let t = pad3(edit.translation.as_slice());
    let rr = pad3(edit.rotation.as_slice());
    let sc = pad3(edit.scale.as_slice());
    let offs: [u32; 9] = [0x2C, 0x30, 0x34, 0x14, 0x18, 0x1C, 0x20, 0x24, 0x28];
    let vals: [u32; 9] = [t[0], t[1], t[2], rr[0], rr[1], rr[2], sc[0], sc[1], sc[2]];
    let ghost pairs = trs_pairs(t, rr, sc);
    let ghost b1 = pool.at(j.0 as int).bytes();
    proof {
        assert forall|k: int| 0 <= k < 9 implies pairs[k] == (#[trigger] offs@[k], vals@[k]) by {}
        assert(pairs.skip(0) =~= pairs);
        assert(b1 == flags_written(old(pool).at(j.0 as int).bytes(), cur.0, bits));
    }
    let mut moved = false;
    let mut k: usize = 0;
    while k < 9 && !moved
        invariant
            k <= 9,
            pool.wf(),
            *pool == p1,
            j.0 < pool.len(),
            pool.same_except(&old(pool), j.0 as int),
            flag_bits(edit.flags@) == Some(bits),
            old(pool).at(j.0 as int).u32_field(4) == Ok::<u32, HsdError>(cur.0),
            b1 == flags_written(old(pool).at(j.0 as int).bytes(), cur.0, bits),
            pairs == trs_pairs(pad3_of(edit.translation@), pad3_of(edit.rotation@), pad3_of(edit.scale@)),
            b1 == pool.at(j.0 as int).bytes(),
            pairs.len() == 9,
            forall|i: int| 0 <= i < 9 ==> pairs[i] == (#[trigger] offs@[i], vals@[i]),
            trs_scan(b1, pairs) == if moved { Ok::<bool, u32>(true) } else { trs_scan(b1, pairs.skip(k as int)) },
        decreases 9 - k,
    {
        proof {
            assert(pairs.skip(k as int)[0] == pairs[k as int]);
            assert(pairs.skip(k as int).drop_first() =~= pairs.skip(k + 1));
        }
        let v = pool.get(j.0).get_u32(offs[k])?;
        if !f32_bits_eq(v, vals[k]) {
            moved = true;
        }
        k = k + 1;
    }
    proof {
        if !moved {
            assert(pairs.skip(9) =~= Seq::<(u32, u32)>::empty());
        }
    }
    if moved {
        let _ = j.set_tx(pool, t[0]);
        let _ = j.set_ty(pool, t[1]);
        let _ = j.set_tz(pool, t[2]);
        let _ = j.set_rx(pool, rr[0]);
        let _ = j.set_ry(pool, rr[1]);
        let _ = j.set_rz(pool, rr[2]);
        let _ = j.set_sx(pool, sc[0]);
        let _ = j.set_sy(pool, sc[1]);
        let _ = j.set_sz(pool, sc[2]);
        proof {
            reveal_with_fuel(trs_written, 10);
            assert(pool.at(j.0 as int).bytes() =~= trs_written(b1, pairs));
            law_trs_write_places_fields(b1, t, rr, sc);
        }
    } else {
        proof {
            law_trs_scan_unmoved(b1, t, rr, sc);
        }
    }
    Ok((flags_changed, moved))
}

// ---------------------------------------------------------------------
// Hierarchy
// ---------------------------------------------------------------------

/// The joint link at `off` of slot `q`.
pub open spec fn link(pool: StructPool, q: StructRef, off: u32) -> Option<JObj> {
    match pool.at(q as int).ref_at(off) {
        Some(x) => Some(JObj(x)),
        None => None,
    }
}

/// The joint that should follow child `i` in its parent's chain.
pub open spec fn next_of(children: Seq<JObj>, i: int) -> Option<JObj> {
    if i + 1 < children.len() { Some(children[i + 1]) } else { None }
}

/// The children are distinct joints, none of them the parent.
pub open spec fn plain_children(parent: JObj, children: Seq<JObj>) -> bool {
    &&& forall|i: int| 0 <= i < children.len() ==> (#[trigger] children[i]).0 != parent.0
    &&& forall|a: int, b: int| 0 <= a < b < children.len() ==> (#[trigger] children[a]).0 != (#[trigger] children[b]).0
}

/// Make `children` the child chain of `parent`: the first child at 0x08,
/// each child's next at 0x0C; links already right are not written.
/// Returns whether anything was written.
#[verifier::spinoff_prover]
#[verifier::rlimit(60)]
fn rewire(pool: &mut StructPool, parent: JObj, children: &Vec<JObj>) -> (changed: bool)
    requires
        old(pool).wf(),
        parent.0 < old(pool).len(),
        forall|i: int| 0 <= i < children@.len() ==> (#[trigger] children@[i]).0 < old(pool).len(),
    ensures
        final(pool).wf(),
        final(pool).len() == old(pool).len(),
        forall|q: int| 0 <= q < old(pool).len() && q != parent.0 && !(exists|i: int| 0 <= i < children@.len() && children@[i].0 == q)
            ==> #[trigger] final(pool).at(q) == old(pool).at(q),
        plain_children(parent, children@) ==> {
            &&& link(*final(pool), parent.0, 0x08) == (if children@.len() > 0 { Some(children@[0]) } else { None::<JObj> })
            &&& forall|i: int| 0 <= i < children@.len() ==> link(*final(pool), (#[trigger] children@[i]).0, 0x0C) == next_of(children@, i)
            &&& changed == (!same_joint(link(*old(pool), parent.0, 0x08), if children@.len() > 0 { Some(children@[0]) } else { None::<JObj> })
                || exists|i: int| 0 <= i < children@.len() && !same_joint(link(*old(pool), (#[trigger] children@[i]).0, 0x0C), next_of(children@, i)))
        },
{
    let desired_child: Option<JObj> = if children.len() > 0 { Some(children[0]) } else { None };
    let mut changed = false;
    if !same_jobj(parent.child(pool), &desired_child) {
        parent.set_child(pool, desired_child);
        changed = true;
    }
    let ghost p1 = *pool;
    proof {
        assert(link(p1, parent.0, 0x08) == desired_child);
        assert forall|q: int| 0 <= q < old(pool).len() && q != parent.0 implies #[trigger] p1.at(q) == old(pool).at(q) by {}
    }
    let mut i: usize = 0;
    while i < children.len()
        invariant
            i <= children@.len(),
            pool.wf(),
            pool.len() == old(pool).len(),
            p1.len() == old(pool).len(),
            parent.0 < pool.len(),
            forall|k: int| 0 <= k < children@.len() ==> (#[trigger] children@[k]).0 < pool.len(),
            forall|q: int| 0 <= q < old(pool).len() && q != parent.0 && !(exists|k: int| 0 <= k < i && children@[k].0 == q)
                ==> #[trigger] pool.at(q) == p1.at(q),
            forall|q: int| 0 <= q < old(pool).len() && q != parent.0 ==> #[trigger] p1.at(q) == old(pool).at(q),
            link(p1, parent.0, 0x08) == desired_child,
            desired_child == (if children@.len() > 0 { Some(children@[0]) } else { None::<JObj> }),
            plain_children(parent, children@) ==> changed == (!same_joint(link(*old(pool), parent.0, 0x08), desired_child)
                || exists|k: int| 0 <= k < i && !same_joint(link(*old(pool), (#[trigger] children@[k]).0, 0x0C), next_of(children@, k))),
            plain_children(parent, children@) ==> link(*pool, parent.0, 0x08) == desired_child,
            plain_children(parent, children@) ==> forall|k: int| 0 <= k < i ==> link(*pool, (#[trigger] children@[k]).0, 0x0C) == next_of(children@, k),
        decreases children@.len() - i,
    {
        let c = children[i];
        let desired_next: Option<JObj> = if i + 1 < children.len() { Some(children[i + 1]) } else { None };
        let ghost p2 = *pool;
        let ghost ch0 = changed;
        let wrote = !same_jobj(c.next(pool), &desired_next);
        if wrote {
            c.set_next(pool, desired_next);
            changed = true;
        }
        proof {
            assert(desired_next == next_of(children@, i as int));
            assert(link(*pool, c.0, 0x0C) == desired_next) by {
                if !wrote {
                    assert(same_joint(link(p2, c.0, 0x0C), desired_next));
                }
            }
            assert forall|q: int| 0 <= q < old(pool).len() && q != parent.0 && !(exists|k: int| 0 <= k < i + 1 && children@[k].0 == q)
                implies #[trigger] pool.at(q) == p1.at(q) by {
                assert(q != c.0) by {
                    if q == c.0 {
                        assert(children@[i as int].0 == q);
                    }
                }
                assert(!(exists|k: int| 0 <= k < i && children@[k].0 == q)) by {
                    if exists|k: int| 0 <= k < i && children@[k].0 == q {
                        let k = choose|k: int| 0 <= k < i && children@[k].0 == q;
                        assert(0 <= k < i + 1 && children@[k].0 == q);
                    }
                }
                assert(pool.at(q) == p2.at(q));
            }
            if plain_children(parent, children@) {
                assert(c.0 != parent.0);
                assert(pool.at(parent.0 as int) == p2.at(parent.0 as int));
                assert forall|k: int| 0 <= k < i + 1 implies link(*pool, (#[trigger] children@[k]).0, 0x0C) == next_of(children@, k) by {
                    if k < i {
                        assert(children@[k].0 != c.0);
                        assert(pool.at(children@[k].0 as int) == p2.at(children@[k].0 as int));
                    }
                }
                assert(p2.at(c.0 as int) == old(pool).at(c.0 as int)) by {
                    assert(!(exists|k: int| 0 <= k < i && children@[k].0 == c.0)) by {
                        if exists|k: int| 0 <= k < i && children@[k].0 == c.0 {
                            let k = choose|k: int| 0 <= k < i && children@[k].0 == c.0;
                            assert(children@[k].0 != children@[i as int].0);
                        }
                    }
                    assert(p2.at(c.0 as int) == p1.at(c.0 as int));
                }
                let ex_old = exists|k: int| 0 <= k < i && !same_joint(link(*old(pool), (#[trigger] children@[k]).0, 0x0C), next_of(children@, k));
                let ex_new = exists|k: int| 0 <= k < i + 1 && !same_joint(link(*old(pool), (#[trigger] children@[k]).0, 0x0C), next_of(children@, k));
                assert(ex_new == (ex_old || !same_joint(link(*old(pool), children@[i as int].0, 0x0C), next_of(children@, i as int)))) by {
                    if ex_new && !ex_old {
                        let k = choose|k: int| 0 <= k < i + 1 && !same_joint(link(*old(pool), (#[trigger] children@[k]).0, 0x0C), next_of(children@, k));
                        assert(k == i);
                    }
                    if !same_joint(link(*old(pool), children@[i as int].0, 0x0C), next_of(children@, i as int)) {
                        assert(0 <= i < i + 1);
                    }
                }
            }
        }
        i = i + 1;
    }
    proof {
        assert forall|q: int| 0 <= q < old(pool).len() && q != parent.0 && !(exists|k: int| 0 <= k < children@.len() && children@[k].0 == q)
            implies #[trigger] pool.at(q) == old(pool).at(q) by {
            assert(pool.at(q) == p1.at(q));
        }
    }
    changed
}

// ---------------------------------------------------------------------
// The import
// ---------------------------------------------------------------------

fn unknown_child_error(id: &str) -> (e: HsdError)
    ensures
        e matches HsdError::MalformedText { offset, context } && offset == 0 && context@ == "joint "@ + id@
            + ": hierarchy child references unknown id"@,
{
    let mut s = String::new();
    s.append("joint ");
    s.append(id);
    s.append(": hierarchy child references unknown id");
    HsdError::MalformedText { offset: 0, context: s }
}

/// Some root is called `name`.
pub open spec fn has_root_named(roots: Seq<RootNode>, name: Seq<char>) -> bool {
    exists|i: int| 0 <= i < roots.len() && (#[trigger] roots[i]).name@ == name
}

/// The roots carry every alias name and no joint root that no alias names.
pub open spec fn aliases_applied(roots: Seq<RootNode>, aliases: Seq<(String, String)>) -> bool {
    &&& forall|k: int| 0 <= k < aliases.len() ==> has_root_named(roots, (#[trigger] aliases[k]).0@)
    &&& forall|i: int| 0 <= i < roots.len() ==> !stale_root(aliases, (#[trigger] roots[i]).name@)
}

/// `w` is the written image of `d`, whose roots carry every alias name of
/// `edits` and no joint root that no alias names.
pub open spec fn import_written(d: Dat, edits: SceneEdits, w: Seq<u8>) -> bool {
    &&& crate::writer::header_ok(&d, w)
    &&& w.len() < 0x1_0000_0000 ==> crate::writer::names_written(&d, w)
    &&& aliases_applied(d.roots@, edits.joint_aliases@)
}

/// Parsing an import's image gives back every alias name as a root name,
/// and no joint root that no alias names.  Left out, as for every written
/// image: images of 4 GiB or more, counts past 32 bits, names holding NUL.
pub proof fn law_import_then_parse(d: Dat, edits: SceneEdits, w: Seq<u8>, back: &Dat)
    requires
        import_written(d, edits, w),
        crate::dat::parsed_from(back, w),
        w.len() < 0x1_0000_0000,
        d.roots@.len() < 0x1_0000_0000,
        d.references@.len() < 0x1_0000_0000,
        crate::writer::names_without_nul(&d),
    ensures
        aliases_applied(back.roots@, edits.joint_aliases@),
{
    crate::writer::law_write_then_parse(&d, w, back);
    let al = edits.joint_aliases@;
    assert forall|k: int| 0 <= k < al.len() implies has_root_named(back.roots@, (#[trigger] al[k]).0@) by {
        assert(has_root_named(d.roots@, al[k].0@));
        let i = choose|i: int| 0 <= i < d.roots@.len() && (#[trigger] d.roots@[i]).name@ == al[k].0@;
        assert(back.roots@[i].name@ == d.roots@[i].name@);
    }
    assert forall|i: int| 0 <= i < back.roots@.len() implies !stale_root(al, (#[trigger] back.roots@[i]).name@) by {
        assert(back.roots@[i].name@ == d.roots@[i].name@);
        assert(!stale_root(al, d.roots@[i].name@));
    }
}

/// Every alias of `edits` has a name and names a known joint; every edited
/// joint that is known lists only flag names that exist and known children.
pub open spec fn edit_ids_ok(ids: Seq<(String, JObj)>, edits: SceneEdits) -> bool {
    &&& forall|k: int|
        0 <= k < edits.joint_aliases@.len() ==> !blank((#[trigger] edits.joint_aliases@[k]).0@) && known(
            ids,
            edits,
            edits.joint_aliases@[k].1@,
        )
    &&& forall|k: int|
        0 <= k < edits.joints@.len() && known(ids, edits, (#[trigger] edits.joints@[k]).id@) ==> flag_bits(
            edits.joints@[k].flags@,
        ) is Some && forall|c: int|
            0 <= c < edits.joints@[k].children@.len() ==> known(ids, edits, #[trigger] edits.joints@[k].children@[c]@)
}

/// `ids` numbers the joints of `d` as the walk of the base scene does.
pub open spec fn base_walked(d: &Dat, ids: Seq<(String, JObj)>) -> bool {
    &&& ids_numbered(ids)
    &&& exists|seen: Seq<bool>| seen.len() == d.pool.len() && #[trigger] ids_cover(ids, seen)
}

/// `base` parses into some `.dat` whose walked joint ids, with the edited
/// ones, make `edits` well-formed.
pub open spec fn import_ok(base: Seq<u8>, edits: SceneEdits) -> bool {
    exists|d: Dat, ids: Seq<(String, JObj)>|
        crate::dat::parsed_from(&d, base) && #[trigger] base_walked(&d, ids) && edit_ids_ok(ids, edits)
}

/// `w` is the image of a `.dat` that keeps the version, the references and
/// the structs' slots of a parse of `base`, with the aliases of `edits`
/// applied.
pub open spec fn imported_from(base: Seq<u8>, edits: SceneEdits, w: Seq<u8>) -> bool {
    exists|d0: Dat, d: Dat|
        #[trigger] crate::dat::parsed_from(&d0, base) && #[trigger] import_written(d, edits, w) && d.version
            == d0.version && d.references@ == d0.references@ && d0.pool.len() <= d.pool.len()
}

/// `w` is the image of some `.dat` to which the aliases of `edits` were
/// applied.
pub open spec fn imported(edits: SceneEdits, w: Seq<u8>) -> bool {
    exists|d: Dat| #[trigger] import_written(d, edits, w)
}

proof fn lemma_import_witness(d: Dat, edits: SceneEdits, w: Seq<u8>)
    requires
        import_written(d, edits, w),
    ensures
        imported(edits, w),
{
}

/// Parse `base_dat`, apply `edits` and write the result:
/// - number the base joints (`jobj_0`, `jobj_1`, … depth first from the
///   models of `scene_data`, then the joint-named roots), aliased joints
///   once;
/// - give every edited joint id the base lacks a fresh default joint;
/// - point each alias root at its joint, adding the root when missing, and
///   drop the joint-named roots no alias names;
/// - write each edited joint's flags and TRS where they differ;
/// - rebuild each edited joint's child chain from its children list.
/// Returns the new bytes and what changed.
#[verifier::spinoff_prover]
#[verifier::rlimit(80)]
pub fn import_scene_edits(base_dat: &[u8], edits: &SceneEdits) -> (r: Result<(Vec<u8>, ImportStats)>)
    requires
        distinct_aliases(edits.joint_aliases@),
        edits.joints@.len() < 0x1000_0000,
        edits.joint_aliases@.len() < 0x1000_0000,
    ensures
        (exists|k: int| 0 <= k < edits.joint_aliases@.len() && blank((#[trigger] edits.joint_aliases@[k]).0@))
            ==> r is Err,
        r matches Ok((bytes, stats)) ==> imported(*edits, bytes@),
        r is Ok ==> import_ok(base_dat@, *edits),
        r matches Ok((bytes, stats)) ==> imported_from(base_dat@, *edits, bytes@),
        r matches Ok((bytes, stats)) ==> {
            &&& bytes@.len() >= crate::dat::HEADER_SIZE
            &&& stats.new_joints <= edits.joints@.len()
            &&& stats.aliases_added + stats.aliases_repointed <= edits.joint_aliases@.len()
            &&& stats.flags_changed <= edits.joints@.len()
            &&& stats.trs_changed <= edits.joints@.len()
            &&& stats.hierarchy_rewired <= edits.joints@.len()
        },
{
    let mut dat = Dat::parse(base_dat)?;
    if dat.pool.len_exec() >= 0x4000_0000 || dat.roots.len() >= 0x4000_0000 {
        return Err(HsdError::malformed(0, "scene too large to import"));
    }
    let mut stats = ImportStats::default();
    let ghost d0 = dat;
    let (mut ids, seen) = walk_base(&dat);
    let ghost ids0 = ids@;
    proof {
        assert(base_walked(&d0, ids0));
    }
    proof {
        lemma_ids_len_bound(ids@, seen@);
    }
    stats.joints_walked = ids.len() as u32;
    proof {
        assert forall|i: int| 0 <= i < ids@.len() implies (#[trigger] ids@[i]).1.0 < dat.pool.len() by {}
    }
    let ghost p0 = dat.pool;
    stats.new_joints = add_new_joints(&mut dat.pool, edits, &mut ids);
    let ghost idsf = ids@;
    proof {
        assert forall|i: int| 0 <= i < dat.roots@.len() implies #[trigger] dat.roots@[i].data < dat.pool.len() by {}
        assert forall|i: int| 0 <= i < dat.references@.len() implies #[trigger] dat.references@[i].data < dat.pool.len() by {}
        assert forall|i: int| 0 <= i < dat.struct_order@.len() implies #[trigger] dat.struct_order@[i] < dat.pool.len() by {}
        assert(dat.wf());
    }
    let aliases = &edits.joint_aliases;
    let (added, repointed, removed) = match apply_aliases(&mut dat, aliases, &ids) {
        Ok(v) => v,
        Err(e) => {
            return Err(e);
        },
    };
    stats.aliases_added = added;
    stats.aliases_repointed = repointed;
    stats.aliases_removed = removed;
    let ghost roots1 = dat.roots@;
    let ghost refs1 = dat.references@;
    proof {
        let al = edits.joint_aliases@;
        assert forall|k: int| 0 <= k < al.len() implies has_root_named(roots1, (#[trigger] al[k]).0@) by {
            let i = choose|i: int|
                0 <= i < roots1.len() && (#[trigger] roots1[i]).name@ == (#[trigger] aliases@[k]).0@
                    && id_lookup(ids@, aliases@[k].1@) == Some(JObj(roots1[i].data));
        }
        assert(aliases_applied(roots1, al));
    }
    proof {
        assert forall|a: int| 0 <= a < edits.joint_aliases@.len() implies !blank((#[trigger] edits.joint_aliases@[a]).0@)
            && known(ids0, *edits, edits.joint_aliases@[a].1@) by {
            assert(!alias_fault(aliases@, ids@, a));
            assert(id_lookup(idsf, edits.joint_aliases@[a].1@) is Some);
        }
    }
    let mut k: usize = 0;
    while k < edits.joints.len()
        invariant
            k <= edits.joints@.len(),
            edits.joints@.len() < 0x1000_0000,
            dat.wf(),
            forall|i: int| 0 <= i < ids@.len() ==> (#[trigger] ids@[i]).1.0 < dat.pool.len(),
            stats.flags_changed <= k,
            stats.trs_changed <= k,
            stats.new_joints <= edits.joints@.len(),
            stats.aliases_added + stats.aliases_repointed <= edits.joint_aliases@.len(),
            stats.hierarchy_rewired == 0,
            forall|a: int| 0 <= a < edits.joint_aliases@.len() ==> !blank((#[trigger] edits.joint_aliases@[a]).0@),
            dat.roots@ == roots1,
            dat.references@ == refs1,
            ids@ == idsf,
            forall|x: Seq<char>| #[trigger] id_lookup(idsf, x) is Some <==> known(ids0, *edits, x),
            forall|a: int| 0 <= a < edits.joint_aliases@.len() ==> known(ids0, *edits, (#[trigger] edits.joint_aliases@[a]).1@),
            crate::dat::parsed_from(&d0, base_dat@),
            base_walked(&d0, ids0),
            dat.version == d0.version,
            d0.pool.len() <= dat.pool.len(),
            refs1 == d0.references@,
            forall|k2: int|
                0 <= k2 < k && id_lookup(idsf, (#[trigger] edits.joints@[k2]).id@) is Some ==> flag_bits(
                    edits.joints@[k2].flags@,
                ) is Some,
        decreases edits.joints@.len() - k,
    {
        let jd = &edits.joints[k];
        if let Some(j) = lookup(&ids, jd.id.as_str()) {
            proof {
                lemma_lookup_in(ids@, jd.id@);
            }
            let ghost pb = dat.pool;
            let (fc, mc) = apply_joint_edit(&mut dat.pool, j, jd)?;
            proof {
                assert forall|i: int| 0 <= i < dat.roots@.len() implies #[trigger] dat.roots@[i].data < dat.pool.len() by {}
                assert forall|i: int| 0 <= i < dat.references@.len() implies #[trigger] dat.references@[i].data < dat.pool.len() by {}
                assert forall|i: int| 0 <= i < dat.struct_order@.len() implies #[trigger] dat.struct_order@[i] < dat.pool.len() by {}
            }
            if fc {
                stats.flags_changed = stats.flags_changed + 1;
            }
            if mc {
                stats.trs_changed = stats.trs_changed + 1;
            }
        }
        k = k + 1;
    }
    let mut k: usize = 0;
    while k < edits.joints.len()
        invariant
            k <= edits.joints@.len(),
            edits.joints@.len() < 0x1000_0000,
            dat.wf(),
            forall|i: int| 0 <= i < ids@.len() ==> (#[trigger] ids@[i]).1.0 < dat.pool.len(),
            stats.hierarchy_rewired <= k,
            stats.flags_changed <= edits.joints@.len(),
            stats.trs_changed <= edits.joints@.len(),
            stats.new_joints <= edits.joints@.len(),
            stats.aliases_added + stats.aliases_repointed <= edits.joint_aliases@.len(),
            forall|a: int| 0 <= a < edits.joint_aliases@.len() ==> !blank((#[trigger] edits.joint_aliases@[a]).0@),
            dat.roots@ == roots1,
            dat.references@ == refs1,
            ids@ == idsf,
            forall|x: Seq<char>| #[trigger] id_lookup(idsf, x) is Some <==> known(ids0, *edits, x),
            forall|a: int| 0 <= a < edits.joint_aliases@.len() ==> known(ids0, *edits, (#[trigger] edits.joint_aliases@[a]).1@),
            crate::dat::parsed_from(&d0, base_dat@),
            base_walked(&d0, ids0),
            dat.version == d0.version,
            d0.pool.len() <= dat.pool.len(),
            refs1 == d0.references@,
            forall|k2: int|
                0 <= k2 < edits.joints@.len() && id_lookup(idsf, (#[trigger] edits.joints@[k2]).id@) is Some ==> flag_bits(
                    edits.joints@[k2].flags@,
                ) is Some,
            forall|k2: int|
                0 <= k2 < k && id_lookup(idsf, (#[trigger] edits.joints@[k2]).id@) is Some ==> forall|c: int|
                    0 <= c < edits.joints@[k2].children@.len() ==> id_lookup(idsf, #[trigger] edits.joints@[k2].children@[c]@) is Some,
        decreases edits.joints@.len() - k,
    {
        let jd = &edits.joints[k];
        if let Some(parent) = lookup(&ids, jd.id.as_str()) {
            proof {
                lemma_lookup_in(ids@, jd.id@);
            }
            let mut resolved: Vec<JObj> = Vec::new();
            let mut c: usize = 0;
            while c < jd.children.len()
                invariant
                    c <= jd.children@.len(),
                    forall|i: int| 0 <= i < ids@.len() ==> (#[trigger] ids@[i]).1.0 < dat.pool.len(),
                    forall|i: int| 0 <= i < resolved@.len() ==> (#[trigger] resolved@[i]).0 < dat.pool.len(),
                    ids@ == idsf,
                    forall|c2: int| 0 <= c2 < c ==> id_lookup(idsf, #[trigger] jd.children@[c2]@) is Some,
                decreases jd.children@.len() - c,
            {
                match lookup(&ids, jd.children[c].as_str()) {
                    Some(cj) => {
                        proof {
                            lemma_lookup_in(ids@, jd.children@[c as int]@);
                        }
                        resolved.push(cj);
                    },
                    None => {
                        return Err(unknown_child_error(jd.id.as_str()));
                    },
                }
                c = c + 1;
            }
            let changed = rewire(&mut dat.pool, parent, &resolved);
            proof {
                assert forall|i: int| 0 <= i < dat.roots@.len() implies #[trigger] dat.roots@[i].data < dat.pool.len() by {}
                assert forall|i: int| 0 <= i < dat.references@.len() implies #[trigger] dat.references@[i].data < dat.pool.len() by {}
                assert forall|i: int| 0 <= i < dat.struct_order@.len() implies #[trigger] dat.struct_order@[i] < dat.pool.len() by {}
            }
            if changed {
                stats.hierarchy_rewired = stats.hierarchy_rewired + 1;
            }
        }
        k = k + 1;
    }
    let out = dat.write()?;
    proof {
        lemma_import_witness(dat, *edits, out@);
        assert forall|k2: int|
            0 <= k2 < edits.joints@.len() && known(ids0, *edits, (#[trigger] edits.joints@[k2]).id@) implies flag_bits(
            edits.joints@[k2].flags@,
        ) is Some && forall|c: int|
            0 <= c < edits.joints@[k2].children@.len() ==> known(ids0, *edits, #[trigger] edits.joints@[k2].children@[c]@) by {
            assert(id_lookup(idsf, edits.joints@[k2].id@) is Some);
            assert forall|c: int| 0 <= c < edits.joints@[k2].children@.len() implies known(
                ids0,
                *edits,
                #[trigger] edits.joints@[k2].children@[c]@,
            ) by {
                assert(id_lookup(idsf, edits.joints@[k2].children@[c]@) is Some);
            }
        }
        assert(edit_ids_ok(ids0, *edits));
        assert(import_ok(base_dat@, *edits));
        assert(import_written(dat, *edits, out@));
        assert(imported_from(base_dat@, *edits, out@));
    }
    Ok((out, stats))
}

} // verus!
