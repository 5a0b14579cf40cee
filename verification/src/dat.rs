//! The `.dat` archive: header, relocation table, public symbol resolution,
//! and the cut of the data section into a graph of structs.
//!
//! Layout of a file:
//! ```text
//!   0x00..0x20   header: file size, relocation table offset, relocation
//!                count, root count, reference count, version[4]
//!   0x20..       struct data
//!   relocOffset  relocation table: u32 positions of pointers (relative to 0x20)
//!   ...          symbol table: (data offset, string offset) per root, then
//!                per reference
//!   ...          string pool: NUL-terminated names
//! ```
//! Offsets stored in the file are relative to 0x20 and are added to it with
//! 32-bit wraparound.

use crate::be::{be32, i32_of, read_i32_at, read_u32_at};
use crate::error::{HsdError, Result};
use crate::hsd_struct::{
    closed_under_refs, dfs_order_ok, lemma_count_false_le, nul_position, seen_matches, symbol_text, symbol_valid,
    utf8_to_string, walk, HsdStruct, StructPool, StructRef,
};
use crate::gx::str_eq;
use crate::offset_map::OffsetMap;
use vstd::prelude::*;

verus! {

/// File header size; struct data follows it.
pub const HEADER_SIZE: u32 = 0x20;

/// A named entry point into the struct graph.
#[derive(Debug)]
pub struct RootNode {
    pub name: String,
    pub data: StructRef,
}

/// A parsed archive: named roots and references into a pool of structs.
#[derive(Debug)]
pub struct Dat {
    pub version: [u8; 4],
    pub roots: Vec<RootNode>,
    pub references: Vec<RootNode>,
    /// Every struct seen during parse that a root or reference reaches, in
    /// ascending file offset.  The writer lays structs out in this order.
    pub struct_order: Vec<StructRef>,
    /// Owner of every struct; `StructRef`s index it.
    pub pool: StructPool,
}

/// `v` reduced to 32 bits.
pub open spec fn w32(v: int) -> u32 {
    (v % 0x1_0000_0000) as u32
}

/// The `i`-th 32-bit header word.
pub open spec fn hdr(b: Seq<u8>, i: int) -> u32 {
    be32(b, 4 * i)
}

/// Absolute offset of the relocation table.
pub open spec fn reloc_table_pos(b: Seq<u8>) -> int {
    hdr(b, 1) + HEADER_SIZE
}

/// Absolute offset of the symbol table (after the relocation table).
pub open spec fn symbol_table_pos(b: Seq<u8>) -> u32 {
    w32(reloc_table_pos(b) + hdr(b, 2) * 4)
}

/// Absolute offset of the string pool (after every symbol entry).
pub open spec fn string_pool_pos(b: Seq<u8>) -> u32 {
    w32(symbol_table_pos(b) + (hdr(b, 3) + hdr(b, 4)) * 8)
}

/// Position of the `k`-th symbol entry: roots first, then references.
pub open spec fn symbol_entry(b: Seq<u8>, k: int) -> u32 {
    w32(symbol_table_pos(b) + k * 8)
}

/// Absolute data offset named by the symbol entry at `e`.
pub open spec fn symbol_data_off(b: Seq<u8>, e: u32) -> u32 {
    w32(be32(b, e as int) + HEADER_SIZE)
}

/// Absolute position of the name of the symbol entry at `e`.
pub open spec fn symbol_name_pos(b: Seq<u8>, e: u32) -> u32 {
    w32(string_pool_pos(b) + be32(b, w32(e + 4) as int))
}

/// `s` holds the non-empty run of file bytes starting at `off`.
pub open spec fn struct_at(s: HsdStruct, b: Seq<u8>, off: u32) -> bool {
    &&& s.bytes().len() > 0
    &&& off + s.bytes().len() <= b.len()
    &&& s.bytes() == b.subrange(off as int, off + s.bytes().len())
}

/// `s` holds a run of file bytes.
pub open spec fn from_file(s: HsdStruct, b: Seq<u8>) -> bool {
    exists|off: u32| #[trigger] struct_at(s, b, off)
}

/// Node `node` is what the `k`-th symbol entry of `b` describes.
pub open spec fn symbol_matches(b: Seq<u8>, pool: &StructPool, k: int, node: RootNode) -> bool {
    let e = symbol_entry(b, k);
    let np = symbol_name_pos(b, e);
    &&& e + 4 <= b.len()
    &&& w32(e + 4) + 4 <= b.len()
    &&& np < b.len()
    &&& symbol_valid(b.skip(np as int))
    &&& node.name@ == symbol_text(b.skip(np as int))
    &&& node.data < pool.len()
    &&& struct_at(pool.at(node.data as int), b, symbol_data_off(b, e))
}

/// Every reference slot of every struct lies inside the struct.
pub open spec fn slots_fit(pool: &StructPool) -> bool {
    forall|q: int, k: u32|
        0 <= q < pool.len() && #[trigger] pool.at(q).refs().contains_key(k) ==> k + 4
            <= pool.at(q).bytes().len()
}

/// The flags parse leaves on a struct: a buffer is a struct without
/// references and larger than 0x40 bytes.
pub open spec fn parsed_flags(s: HsdStruct) -> bool {
    &&& s.buffer_aligned() == (s.refs().dom() =~= Set::<u32>::empty() && s.bytes().len() > 0x40)
    &&& s.aligned()
    &&& s.duplicable()
    &&& s.bufferable()
}

impl Dat {
    /// Every identity the archive holds names a slot of its pool.
    pub open spec fn wf(&self) -> bool {
        &&& self.pool.wf()
        &&& forall|i: int| 0 <= i < self.roots@.len() ==> #[trigger] self.roots@[i].data < self.pool.len()
        &&& forall|i: int|
            0 <= i < self.references@.len() ==> #[trigger] self.references@[i].data
                < self.pool.len()
        &&& forall|i: int|
            0 <= i < self.struct_order@.len() ==> #[trigger] self.struct_order@[i]
                < self.pool.len()
    }

    /// The identities of every root, then every reference.
    pub open spec fn symbol_refs(&self) -> Seq<StructRef> {
        self.roots@.map_values(|r: RootNode| r.data) + self.references@.map_values(
            |r: RootNode| r.data,
        )
    }
}

/// Where `parse` cuts a file without reference symbols: at the relocation
/// table, at every relocated pointer's target, at the end of the file when
/// a pointer reaches past the table, and at every root's data offset.
pub open spec fn file_cuts(b: Seq<u8>) -> Set<u32> {
    let ro = reloc_table_pos(b) as u32;
    let n = hdr(b, 2) as int;
    Set::new(
        |k: u32|
            k == ro || targeted(b, ro, n, k) || (k == hdr(b, 0) && past_table(b, ro, n)) || file_root_offs(
                b,
            ).contains(k),
    )
}

/// The pointers `parse` wires: every live relocated pointer, to its target.
pub open spec fn file_relocs(b: Seq<u8>) -> Map<u32, u32> {
    Map::new(
        |pos: u32| relocated(b, reloc_table_pos(b) as u32, hdr(b, 2) as int, pos),
        |pos: u32| ptr_target(b, pos),
    )
}

/// The data offsets of the roots.
pub open spec fn file_root_offs(b: Seq<u8>) -> Seq<u32> {
    Seq::new(hdr(b, 3) as nat, |j: int| symbol_data_off(b, symbol_entry(b, j)))
}

/// What a successful parse of `b` yields.
pub open spec fn parsed_from(d: &Dat, b: Seq<u8>) -> bool {
    &&& d.wf()
    &&& b.len() >= HEADER_SIZE
    &&& reloc_table_pos(b) <= u32::MAX
    &&& d.version@ == b.subrange(0x14, 0x18)
    &&& d.roots@.len() == hdr(b, 3)
    &&& d.references@.len() == hdr(b, 4)
    &&& forall|i: int| 0 <= i < d.roots@.len() ==> symbol_matches(b, &d.pool, i, #[trigger] d.roots@[i])
    &&& forall|i: int|
        0 <= i < d.references@.len() ==> symbol_matches(
            b,
            &d.pool,
            hdr(b, 3) + i,
            #[trigger] d.references@[i],
        )
    &&& forall|q: int|
        0 <= q < d.pool.len() ==> parsed_flags(#[trigger] d.pool.at(q)) && from_file(d.pool.at(q), b)
    &&& slots_fit(&d.pool)
    &&& d.struct_order@.no_duplicates()
    &&& closed_under_refs(&d.pool, d.struct_order@)
    &&& forall|j: int| 0 <= j < d.symbol_refs().len() ==> d.struct_order@.contains(#[trigger] d.symbol_refs()[j])
    &&& forall|j: int| 0 <= j < d.struct_order@.len() ==> reached(&d.pool, d.symbol_refs().to_set(), #[trigger] d.struct_order@[j])
    &&& shares_by_offset(d, file_root_offs(b) + file_ref_offs(b))
    &&& hdr(b, 4) == 0 ==> crate::dat::graph_cut(d, b, file_cuts(b), file_relocs(b), file_root_offs(b))
}

// ---------------------------------------------------------------------
// Reads
// ---------------------------------------------------------------------

/// The big-endian `u32` at `abs`, or `Malformed` past the end.
fn read_u32(b: &[u8], abs: u32) -> (r: Result<u32>)
    ensures
        abs + 4 <= b@.len() ==> r == Ok::<u32, HsdError>(be32(b@, abs as int)),
        abs + 4 > b@.len() ==> (r matches Err(HsdError::Malformed { offset, .. }) && offset
            == abs),
{
    if b.len() < 4 || abs as usize > b.len() - 4 {
        return Err(HsdError::malformed(abs as u64, "u32 read past EOF"));
    }
    Ok(read_u32_at(b, abs as usize))
}

/// The big-endian `i32` at `abs`, or `Malformed` past the end.
fn read_i32(b: &[u8], abs: u32) -> (r: Result<i32>)
    ensures
        abs + 4 <= b@.len() ==> r == Ok::<i32, HsdError>(i32_of(be32(b@, abs as int))),
        abs + 4 > b@.len() ==> (r matches Err(HsdError::Malformed { offset, .. }) && offset
            == abs),
{
    if b.len() < 4 || abs as usize > b.len() - 4 {
        return Err(HsdError::malformed(abs as u64, "u32 read past EOF"));
    }
    Ok(read_i32_at(b, abs as usize))
}

/// The NUL-terminated UTF-8 string at `abs`.
fn read_string_nul(b: &[u8], abs: u32) -> (r: Result<String>)
    ensures
        abs >= b@.len() ==> (r matches Err(HsdError::Malformed { offset, .. }) && offset == abs),
        abs < b@.len() && symbol_valid(b@.skip(abs as int)) ==> (r matches Ok(s) && s@
            == symbol_text(b@.skip(abs as int))),
        abs < b@.len() && !symbol_valid(b@.skip(abs as int)) ==> (r matches Err(
            HsdError::Utf8 { offset, .. },
        ) && offset == abs),
{
    if abs as usize >= b.len() {
        return Err(HsdError::malformed(abs as u64, "string read past EOF"));
    }
    let tail = vstd::slice::slice_subrange(b, abs as usize, b.len());
    proof {
        assert(tail@ =~= b@.skip(abs as int));
    }
    let nul = nul_position(tail);
    proof {
        crate::hsd_struct::lemma_nul_terminated_len(tail@);
    }
    let head = vstd::slice::slice_subrange(tail, 0, nul);
    proof {
        assert(head@ =~= tail@.take(nul as int));
    }
    match utf8_to_string(head) {
        Ok(s) => Ok(s),
        Err(source) => Err(HsdError::Utf8 { offset: abs as u64, source }),
    }
}

/// `v` reduced to 32 bits.
fn wrap32(v: u64) -> (r: u32)
    ensures
        r == w32(v as int),
{
    (v % 0x1_0000_0000) as u32
}

// ---------------------------------------------------------------------
// Relocation table and reference chains
// ---------------------------------------------------------------------

/// Pointer position named by relocation entry `i` of the table at `ro`.
pub open spec fn reloc_ptr(b: Seq<u8>, ro: u32, i: int) -> u32 {
    w32(be32(b, w32(ro + 4 * i) as int) + HEADER_SIZE)
}

/// The pointer at `pos` lies in `b` and holds a non-negative offset.
pub open spec fn live_ptr(b: Seq<u8>, pos: u32) -> bool {
    &&& pos + 4 <= b.len()
    &&& be32(b, pos as int) < 0x8000_0000
}

/// The struct start that the pointer at `pos` names.
pub open spec fn ptr_target(b: Seq<u8>, pos: u32) -> u32 {
    w32(be32(b, pos as int) + HEADER_SIZE)
}

/// One of the first `n` relocation entries names a live pointer at `pos`.
pub open spec fn relocated(b: Seq<u8>, ro: u32, n: int, pos: u32) -> bool {
    exists|i: int| 0 <= i < n && #[trigger] reloc_ptr(b, ro, i) == pos && live_ptr(b, pos)
}

/// One of the first `n` relocation entries names a live pointer to `k`.
pub open spec fn targeted(b: Seq<u8>, ro: u32, n: int, k: u32) -> bool {
    exists|i: int|
        0 <= i < n && live_ptr(b, #[trigger] reloc_ptr(b, ro, i)) && ptr_target(b, reloc_ptr(b, ro, i)) == k
}

/// One of the first `n` relocation entries names a readable pointer whose
/// value, read unsigned, lies past the table.
pub open spec fn past_table(b: Seq<u8>, ro: u32, n: int) -> bool {
    exists|i: int|
        0 <= i < n && #[trigger] reloc_ptr(b, ro, i) + 4 <= b.len() && (i32_of(be32(b, reloc_ptr(b, ro, i) as int))
            as u32) > ro
}

/// Read `reloc_count` relocation entries at `reloc_offset`: each names a
/// pointer position, and the pointer's value names a struct start.  An entry
/// whose pointer has no 4 bytes of room is dropped; a negative pointer is an
/// alternate null.  A pointer beyond the table marks `fsize` as a struct end.
#[verifier::rlimit(80)]
#[verifier::spinoff_prover]
fn read_relocations(
    b: &[u8],
    fsize: u32,
    reloc_offset: u32,
    reloc_count: u32,
    offsets: &mut OffsetMap<bool>,
    relocs: &mut OffsetMap<u32>,
) -> (r: Result<()>)
    requires
        old(offsets).wf(),
        old(relocs).wf(),
    ensures
        final(offsets).wf(),
        final(relocs).wf(),
        r is Ok <==> forall|i: int| 0 <= i < reloc_count ==> #[trigger] w32(reloc_offset + 4 * i) + 4 <= b@.len(),
        r is Ok ==> forall|pos: u32|
            #[trigger] final(relocs)@.contains_key(pos) <==> (old(relocs)@.contains_key(pos) || relocated(
                b@,
                reloc_offset,
                reloc_count as int,
                pos,
            )),
        r is Ok ==> forall|pos: u32|
            #[trigger] final(relocs)@.contains_key(pos) ==> final(relocs)@[pos] == (if relocated(
                b@,
                reloc_offset,
                reloc_count as int,
                pos,
            ) {
                ptr_target(b@, pos)
            } else {
                old(relocs)@[pos]
            }),
        r is Ok ==> forall|k: u32|
            #[trigger] final(offsets)@.contains_key(k) <==> (old(offsets)@.contains_key(k) || targeted(
                b@,
                reloc_offset,
                reloc_count as int,
                k,
            ) || (k == fsize && past_table(b@, reloc_offset, reloc_count as int))),
{
    let ghost r0 = relocs@;
    let ghost f0 = offsets@;
    let mut i: u32 = 0;
    while i < reloc_count
        invariant
            offsets.wf(),
            relocs.wf(),
            i <= reloc_count,
            forall|j: int| 0 <= j < i ==> #[trigger] w32(reloc_offset + 4 * j) + 4 <= b@.len(),
            forall|pos: u32|
                #[trigger] relocs@.contains_key(pos) <==> (r0.contains_key(pos) || relocated(
                    b@,
                    reloc_offset,
                    i as int,
                    pos,
                )),
            forall|pos: u32|
                #[trigger] relocs@.contains_key(pos) ==> relocs@[pos] == (if relocated(
                    b@,
                    reloc_offset,
                    i as int,
                    pos,
                ) {
                    ptr_target(b@, pos)
                } else {
                    r0[pos]
                }),
            forall|k: u32|
                #[trigger] offsets@.contains_key(k) <==> (f0.contains_key(k) || targeted(
                    b@,
                    reloc_offset,
                    i as int,
                    k,
                ) || (k == fsize && past_table(b@, reloc_offset, i as int))),
        decreases reloc_count - i,
    {
        let entry_pos = wrap32(reloc_offset as u64 + 4 * i as u64);
        let raw = match read_u32(b, entry_pos) {
            Ok(v) => v,
            Err(e) => {
                assert(!(w32(reloc_offset + 4 * (i as int)) + 4 <= b@.len()));
                return Err(e);
            },
        };
        let pointer_pos = wrap32(raw as u64 + HEADER_SIZE as u64);
        let ghost ii = i as int;
        assert(pointer_pos == reloc_ptr(b@, reloc_offset, ii));
        i = i + 1;
        let target_rel = match read_i32(b, pointer_pos) {
            Ok(v) => v,
            Err(_) => {
                proof {
                    assert(!live_ptr(b@, pointer_pos));
                    lemma_reloc_step_dead(b@, reloc_offset, ii);
                }
                continue;
            },
        };
        let ghost o_before = offsets@;
        if (#[verifier::truncate] (target_rel as u32)) > reloc_offset {
            offsets.insert(fsize, true);
        }
        proof {
            lemma_past_table_step(b@, reloc_offset, ii, (target_rel as u32) > reloc_offset);
        }
        if target_rel < 0 {
            proof {
                assert(!live_ptr(b@, pointer_pos));
                lemma_reloc_step_dead(b@, reloc_offset, ii);
                lemma_targeted_step_dead(b@, reloc_offset, ii);
            }
            continue;
        }
        let target = target_rel as u32 + HEADER_SIZE;
        proof {
            assert(live_ptr(b@, pointer_pos));
            assert(target == ptr_target(b@, pointer_pos));
            lemma_reloc_step_live(b@, reloc_offset, ii);
            lemma_targeted_step_live(b@, reloc_offset, ii);
        }
        relocs.insert(pointer_pos, target);
        offsets.insert(target, true);
    }
    Ok(())
}

proof fn lemma_reloc_step_dead(b: Seq<u8>, ro: u32, i: int)
    requires
        0 <= i,
        !live_ptr(b, reloc_ptr(b, ro, i)),
    ensures
        forall|pos: u32| #[trigger] relocated(b, ro, i + 1, pos) == relocated(b, ro, i, pos),
{
    assert forall|pos: u32| #[trigger] relocated(b, ro, i + 1, pos) implies relocated(b, ro, i, pos) by {
        let j = choose|j: int| 0 <= j < i + 1 && #[trigger] reloc_ptr(b, ro, j) == pos && live_ptr(b, pos);
        assert(j != i);
    }
    assert forall|pos: u32| #[trigger] relocated(b, ro, i, pos) implies relocated(b, ro, i + 1, pos) by {
        let j = choose|j: int| 0 <= j < i && #[trigger] reloc_ptr(b, ro, j) == pos && live_ptr(b, pos);
        assert(reloc_ptr(b, ro, j) == pos);
    }
}

proof fn lemma_targeted_step_dead(b: Seq<u8>, ro: u32, i: int)
    requires
        0 <= i,
        !live_ptr(b, reloc_ptr(b, ro, i)),
    ensures
        forall|k: u32| #[trigger] targeted(b, ro, i + 1, k) == targeted(b, ro, i, k),
{
    assert forall|k: u32| #[trigger] targeted(b, ro, i + 1, k) implies targeted(b, ro, i, k) by {
        let j = choose|j: int|
            0 <= j < i + 1 && live_ptr(b, #[trigger] reloc_ptr(b, ro, j)) && ptr_target(b, reloc_ptr(b, ro, j)) == k;
        assert(j != i);
    }
    assert forall|k: u32| #[trigger] targeted(b, ro, i, k) implies targeted(b, ro, i + 1, k) by {
        let j = choose|j: int|
            0 <= j < i && live_ptr(b, #[trigger] reloc_ptr(b, ro, j)) && ptr_target(b, reloc_ptr(b, ro, j)) == k;
        assert(live_ptr(b, reloc_ptr(b, ro, j)));
    }
}

proof fn lemma_reloc_step_live(b: Seq<u8>, ro: u32, i: int)
    requires
        0 <= i,
        live_ptr(b, reloc_ptr(b, ro, i)),
    ensures
        forall|pos: u32|
            #[trigger] relocated(b, ro, i + 1, pos) == (relocated(b, ro, i, pos) || pos == reloc_ptr(b, ro, i)),
{
    assert forall|pos: u32| #[trigger] relocated(b, ro, i + 1, pos) implies (relocated(b, ro, i, pos) || pos
        == reloc_ptr(b, ro, i)) by {
        let j = choose|j: int| 0 <= j < i + 1 && #[trigger] reloc_ptr(b, ro, j) == pos && live_ptr(b, pos);
        if j < i {
            assert(reloc_ptr(b, ro, j) == pos);
        }
    }
    assert forall|pos: u32| (relocated(b, ro, i, pos) || pos == reloc_ptr(b, ro, i)) implies #[trigger] relocated(
        b,
        ro,
        i + 1,
        pos,
    ) by {
        if relocated(b, ro, i, pos) {
            let j = choose|j: int| 0 <= j < i && #[trigger] reloc_ptr(b, ro, j) == pos && live_ptr(b, pos);
            assert(reloc_ptr(b, ro, j) == pos);
        } else {
            assert(reloc_ptr(b, ro, i) == pos);
        }
    }
}

proof fn lemma_targeted_step_live(b: Seq<u8>, ro: u32, i: int)
    requires
        0 <= i,
        live_ptr(b, reloc_ptr(b, ro, i)),
    ensures
        forall|k: u32|
            #[trigger] targeted(b, ro, i + 1, k) == (targeted(b, ro, i, k) || k == ptr_target(
                b,
                reloc_ptr(b, ro, i),
            )),
{
    assert forall|k: u32| #[trigger] targeted(b, ro, i + 1, k) implies (targeted(b, ro, i, k) || k == ptr_target(
        b,
        reloc_ptr(b, ro, i),
    )) by {
        let j = choose|j: int|
            0 <= j < i + 1 && live_ptr(b, #[trigger] reloc_ptr(b, ro, j)) && ptr_target(b, reloc_ptr(b, ro, j)) == k;
        if j < i {
            assert(live_ptr(b, reloc_ptr(b, ro, j)));
        }
    }
    assert forall|k: u32| (targeted(b, ro, i, k) || k == ptr_target(b, reloc_ptr(b, ro, i))) implies #[trigger] targeted(
        b,
        ro,
        i + 1,
        k,
    ) by {
        if targeted(b, ro, i, k) {
            let j = choose|j: int|
                0 <= j < i && live_ptr(b, #[trigger] reloc_ptr(b, ro, j)) && ptr_target(b, reloc_ptr(b, ro, j))
                    == k;
            assert(live_ptr(b, reloc_ptr(b, ro, j)));
        } else {
            assert(live_ptr(b, reloc_ptr(b, ro, i)));
        }
    }
}

proof fn lemma_past_table_step(b: Seq<u8>, ro: u32, i: int, past: bool)
    requires
        0 <= i,
        reloc_ptr(b, ro, i) + 4 <= b.len(),
        past == ((i32_of(be32(b, reloc_ptr(b, ro, i) as int)) as u32) > ro),
    ensures
        past_table(b, ro, i + 1) == (past_table(b, ro, i) || past),
{
    if past_table(b, ro, i + 1) && !past {
        let j = choose|j: int|
            0 <= j < i + 1 && #[trigger] reloc_ptr(b, ro, j) + 4 <= b.len() && (i32_of(
                be32(b, reloc_ptr(b, ro, j) as int),
            ) as u32) > ro;
        assert(j != i);
        assert(reloc_ptr(b, ro, j) + 4 <= b.len());
    }
    if past_table(b, ro, i) {
        let j = choose|j: int|
            0 <= j < i && #[trigger] reloc_ptr(b, ro, j) + 4 <= b.len() && (i32_of(be32(b, reloc_ptr(b, ro, j) as int))
                as u32) > ro;
        assert(reloc_ptr(b, ro, j) + 4 <= b.len());
    }
    if past {
        assert(reloc_ptr(b, ro, i) + 4 <= b.len());
    }
}

/// Where the link at `p` leads: its first word, read as a relative offset.
pub open spec fn chain_next(b: Seq<u8>, p: u32) -> u32 {
    w32((i32_of(be32(b, p as int)) as u32) + HEADER_SIZE)
}

/// Position of link `i` of the chain that starts at `start`.
pub open spec fn chain_pos(b: Seq<u8>, start: u32, i: nat) -> u32
    decreases i,
{
    if i == 0 {
        start
    } else {
        chain_next(b, chain_pos(b, start, (i - 1) as nat))
    }
}

/// The link at `p` lies in `b` and holds 0 or -1: the chain ends there.
pub open spec fn chain_stops(b: Seq<u8>, p: u32) -> bool {
    &&& p + 4 <= b.len()
    &&& (i32_of(be32(b, p as int)) == 0 || i32_of(be32(b, p as int)) == -1)
}

/// The link at `p` lies in `b` and leads on.
pub open spec fn chain_goes_on(b: Seq<u8>, p: u32) -> bool {
    &&& p + 4 <= b.len()
    &&& !(i32_of(be32(b, p as int)) == 0 || i32_of(be32(b, p as int)) == -1)
}

/// The chain from `start` leads on through links `0..n` and ends at link `n`.
pub open spec fn chain_ends_at(b: Seq<u8>, start: u32, n: nat) -> bool {
    &&& forall|i: nat| i < n ==> chain_goes_on(b, #[trigger] chain_pos(b, start, i))
    &&& chain_stops(b, chain_pos(b, start, n))
}

/// The chain from `start` ends after fewer links than `b` has bytes.
pub open spec fn chain_ends(b: Seq<u8>, start: u32) -> bool {
    exists|n: nat| n < b.len() && #[trigger] chain_ends_at(b, start, n)
}

/// `m` with each of the first `n` links mapped to the link after it.
pub open spec fn chain_relocs(m: Map<u32, u32>, b: Seq<u8>, start: u32, n: nat) -> Map<u32, u32>
    decreases n,
{
    if n == 0 {
        m
    } else {
        chain_relocs(m, b, start, (n - 1) as nat).insert(chain_pos(b, start, (n - 1) as nat), chain_pos(b, start, n))
    }
}

/// `m` with links `1..=n` marked as struct starts.
pub open spec fn chain_starts(m: Map<u32, bool>, b: Seq<u8>, start: u32, n: nat) -> Map<u32, bool>
    decreases n,
{
    if n == 0 {
        m
    } else {
        chain_starts(m, b, start, (n - 1) as nat).insert(chain_pos(b, start, n), true)
    }
}

/// The maps went from `r0`, `o0` to `r1`, `o1` by walking the whole chain
/// from `start`.
pub open spec fn chain_walked(
    b: Seq<u8>,
    start: u32,
    r0: Map<u32, u32>,
    r1: Map<u32, u32>,
    o0: Map<u32, bool>,
    o1: Map<u32, bool>,
) -> bool {
    exists|n: nat|
        #[trigger] chain_ends_at(b, start, n) && r1 == chain_relocs(r0, b, start, n) && o1 == chain_starts(
            o0,
            b,
            start,
            n,
        )
}

/// `k` is a link after the first of the chain from `start`, which ends.
pub open spec fn chain_link(b: Seq<u8>, start: u32, k: u32) -> bool {
    exists|n: nat, i: nat|
        #[trigger] chain_ends_at(b, start, n) && 1 <= i <= n && #[trigger] chain_pos(b, start, i) == k
}

/// A chain ends at one link only.
proof fn lemma_chain_end_unique(b: Seq<u8>, start: u32, n: nat, m: nat)
    requires
        chain_ends_at(b, start, n),
        chain_ends_at(b, start, m),
    ensures
        n == m,
{
    if n < m {
        assert(chain_goes_on(b, chain_pos(b, start, n)));
    } else if m < n {
        assert(chain_goes_on(b, chain_pos(b, start, m)));
    }
}

proof fn lemma_chain_starts_keys(m: Map<u32, bool>, b: Seq<u8>, start: u32, n: nat, k: u32)
    ensures
        chain_starts(m, b, start, n).contains_key(k) <==> (m.contains_key(k) || exists|i: nat|
            1 <= i <= n && #[trigger] chain_pos(b, start, i) == k),
    decreases n,
{
    if n > 0 {
        lemma_chain_starts_keys(m, b, start, (n - 1) as nat, k);
        if exists|i: nat| 1 <= i <= n && #[trigger] chain_pos(b, start, i) == k {
            let i = choose|i: nat| 1 <= i <= n && #[trigger] chain_pos(b, start, i) == k;
            if i < n {
                assert(1 <= i <= (n - 1) as nat && chain_pos(b, start, i) == k);
            }
        }
        if exists|i: nat| 1 <= i <= (n - 1) as nat && #[trigger] chain_pos(b, start, i) == k {
            let i = choose|i: nat| 1 <= i <= (n - 1) as nat && #[trigger] chain_pos(b, start, i) == k;
            assert(1 <= i <= n && chain_pos(b, start, i) == k);
        }
    }
}

/// After walking the whole chain from `start`, the struct starts are those
/// before plus the links of the chain.
proof fn lemma_chain_walked_keys(
    b: Seq<u8>,
    start: u32,
    r0: Map<u32, u32>,
    r1: Map<u32, u32>,
    o0: Map<u32, bool>,
    o1: Map<u32, bool>,
)
    requires
        chain_walked(b, start, r0, r1, o0, o1),
    ensures
        forall|k: u32| #[trigger] o1.contains_key(k) <==> (o0.contains_key(k) || chain_link(b, start, k)),
{
    let n = choose|n: nat|
        #[trigger] chain_ends_at(b, start, n) && r1 == chain_relocs(r0, b, start, n) && o1 == chain_starts(o0, b, start, n);
    assert forall|k: u32| #[trigger] o1.contains_key(k) <==> (o0.contains_key(k) || chain_link(b, start, k)) by {
        lemma_chain_starts_keys(o0, b, start, n, k);
        if chain_link(b, start, k) {
            let (n2, i) = choose|n2: nat, i: nat|
                #[trigger] chain_ends_at(b, start, n2) && 1 <= i <= n2 && #[trigger] chain_pos(b, start, i) == k;
            lemma_chain_end_unique(b, start, n, n2);
        }
        if exists|i: nat| 1 <= i <= n && #[trigger] chain_pos(b, start, i) == k {
            let i = choose|i: nat| 1 <= i <= n && #[trigger] chain_pos(b, start, i) == k;
            assert(chain_ends_at(b, start, n) && 1 <= i <= n && chain_pos(b, start, i) == k);
        }
    }
}

/// Walk the singly-linked chain owned by a reference symbol: the first word
/// of each struct holds the next struct's relative offset, 0 or -1 ends it.
/// Every link becomes a struct start and a pointer.  A chain that revisits a
/// position never ends; it is refused once it is longer than the file.
fn walk_reference_chain(
    b: &[u8],
    start: u32,
    offsets: &mut OffsetMap<bool>,
    relocs: &mut OffsetMap<u32>,
) -> (r: Result<()>)
    requires
        old(offsets).wf(),
        old(relocs).wf(),
    ensures
        final(offsets).wf(),
        final(relocs).wf(),
        r is Ok <==> chain_ends(b@, start),
        r is Ok ==> chain_walked(b@, start, old(relocs)@, final(relocs)@, old(offsets)@, final(offsets)@),
{
    let ghost r0 = relocs@;
    let ghost f0 = offsets@;
    let mut current = start;
    let mut steps: usize = 0;
    loop
        invariant
            offsets.wf(),
            relocs.wf(),
            steps <= b@.len(),
            current == chain_pos(b@, start, steps as nat),
            relocs@ == chain_relocs(r0, b@, start, steps as nat),
            offsets@ == chain_starts(f0, b@, start, steps as nat),
            forall|i: nat| i < steps ==> chain_goes_on(b@, #[trigger] chain_pos(b@, start, i)),
            r0 == old(relocs)@,
            f0 == old(offsets)@,
        decreases b@.len() - steps,
    {
        if steps >= b.len() {
            proof {
                if chain_ends(b@, start) {
                    let n = choose|n: nat| n < b@.len() && #[trigger] chain_ends_at(b@, start, n);
                    assert(chain_goes_on(b@, chain_pos(b@, start, n)));
                }
            }
            return Err(HsdError::malformed(current as u64, "reference chain does not end"));
        }
        let next_rel = match read_i32(b, current) {
            Ok(v) => v,
            Err(e) => {
                proof {
                    if chain_ends(b@, start) {
                        let n = choose|n: nat| n < b@.len() && #[trigger] chain_ends_at(b@, start, n);
                        if n < steps {
                            assert(chain_goes_on(b@, chain_pos(b@, start, n)));
                        } else if n > steps {
                            assert(chain_goes_on(b@, chain_pos(b@, start, steps as nat)));
                        }
                    }
                }
                return Err(e);
            },
        };
        if next_rel == 0 || next_rel == -1 {
            proof {
                assert(chain_ends_at(b@, start, steps as nat));
                assert(chain_walked(b@, start, r0, relocs@, f0, offsets@));
            }
            return Ok(());
        }
        let next = wrap32((#[verifier::truncate] (next_rel as u32)) as u64 + HEADER_SIZE as u64);
        assert(next == chain_pos(b@, start, (steps + 1) as nat));
        relocs.insert(current, next);
        offsets.insert(next, true);
        current = next;
        proof {
            assert(chain_goes_on(b@, chain_pos(b@, start, steps as nat)));
        }
        steps = steps + 1;
    }
}

/// `off` and `name` are what the `k`-th symbol entry of `b` holds.
pub open spec fn symbol_read(b: Seq<u8>, k: int, off: u32, name: Seq<char>) -> bool {
    let e = symbol_entry(b, k);
    let np = symbol_name_pos(b, e);
    &&& e + 4 <= b.len()
    &&& w32(e + 4) + 4 <= b.len()
    &&& np < b.len()
    &&& symbol_valid(b.skip(np as int))
    &&& name == symbol_text(b.skip(np as int))
    &&& off == symbol_data_off(b, e)
}

/// The `k`-th symbol entry of `b` lies in `b` and names a valid string.
pub open spec fn symbol_readable(b: Seq<u8>, k: int) -> bool {
    let e = symbol_entry(b, k);
    let np = symbol_name_pos(b, e);
    &&& e + 4 <= b.len()
    &&& w32(e + 4) + 4 <= b.len()
    &&& np < b.len()
    &&& symbol_valid(b.skip(np as int))
}

/// One symbol entry: the absolute data offset and the name.
fn read_symbol(b: &[u8], k: u64) -> (r: Result<(u32, String)>)
    requires
        b@.len() >= HEADER_SIZE,
        reloc_table_pos(b@) <= u32::MAX,
        k < 0x2_0000_0000,
    ensures
        r is Ok <==> symbol_readable(b@, k as int),
        r matches Ok((off, name)) ==> symbol_read(b@, k as int, off, name@),
{
    let reloc_offset = read_u32_at(b, 4) + HEADER_SIZE;
    let reloc_count = read_u32_at(b, 8);
    let root_count = read_u32_at(b, 12);
    let ref_count = read_u32_at(b, 16);
    let sym = wrap32(reloc_offset as u64 + reloc_count as u64 * 4);
    let pool = wrap32(sym as u64 + (root_count as u64 + ref_count as u64) * 8);
    assert(sym == symbol_table_pos(b@));
    assert(pool == string_pool_pos(b@));
    let entry = wrap32(sym as u64 + k * 8);
    let raw = read_u32(b, entry)?;
    let data_off = wrap32(raw as u64 + HEADER_SIZE as u64);
    let str_at = wrap32(entry as u64 + 4);
    let str_off = read_u32(b, str_at)?;
    let name_pos = wrap32(pool as u64 + str_off as u64);
    let name = read_string_nul(b, name_pos)?;
    Ok((data_off, name))
}

// ---------------------------------------------------------------------
// Struct graph
// ---------------------------------------------------------------------

/// `e` is the first struct start after `k` in `offs`.
pub open spec fn next_cut(offs: Map<u32, bool>, k: u32, e: u32) -> bool {
    &&& offs.contains_key(e)
    &&& k < e
    &&& forall|k2: u32| #[trigger] offs.contains_key(k2) && k < k2 ==> e <= k2
}

/// Some struct start follows `k` in `offs`.
pub open spec fn has_next_cut(offs: Map<u32, bool>, k: u32) -> bool {
    exists|e: u32| #[trigger] next_cut(offs, k, e)
}

/// Slot `q` of `p` was cut from `b` at the start `spans[q].0`, which `ots`
/// maps to it, up to the next start `spans[q].1` or the end of `b`.
pub open spec fn slot_span(
    p: &StructPool,
    spans: Seq<(u32, u32)>,
    ots: Map<u32, StructRef>,
    offs: Map<u32, bool>,
    blen: int,
    q: int,
) -> bool {
    &&& ots.contains_key(spans[q].0)
    &&& ots[spans[q].0] == q
    &&& next_cut(offs, spans[q].0, spans[q].1)
    &&& spans[q].0 < blen
    &&& p.at(q).bytes().len() == (if spans[q].1 < blen {
        spans[q].1 as int
    } else {
        blen
    }) - spans[q].0
}

/// The first `w` keys of `pairs` hold `k`.
pub open spec fn early_key(pairs: Seq<(u32, bool)>, w: int, k: u32) -> bool {
    exists|j: int| 0 <= j < w && #[trigger] pairs[j].0 == k
}

proof fn lemma_next_cut_at(offsets: &OffsetMap<bool>, w: int)
    requires
        offsets.wf(),
        0 <= w,
        w + 1 < offsets.pairs().len(),
    ensures
        next_cut(offsets@, offsets.pairs()[w].0, offsets.pairs()[w + 1].0),
{
    offsets.lemma_view();
    let ps = offsets.pairs();
    assert(crate::offset_map::has_key_at(ps, ps[w + 1].0));
    assert forall|k2: u32| #[trigger] offsets@.contains_key(k2) && ps[w].0 < k2 implies ps[w + 1].0 <= k2 by {
        assert(crate::offset_map::has_key_at(ps, k2));
        let m = choose|m: int| 0 <= m < ps.len() && ps[m].0 == k2;
        if m <= w {
            if m < w {
                assert(ps[m].0 < ps[w].0);
            }
        } else if m > w + 1 {
            assert(ps[w + 1].0 < ps[m].0);
        }
    }
}

proof fn lemma_has_next_cut(offsets: &OffsetMap<bool>, k: u32)
    requires
        offsets.wf(),
        offsets.pairs().len() >= 1,
        offsets@.contains_key(k),
    ensures
        has_next_cut(offsets@, k) <==> early_key(offsets.pairs(), offsets.pairs().len() - 1, k),
{
    offsets.lemma_view();
    let ps = offsets.pairs();
    let n = ps.len() as int;
    assert(crate::offset_map::has_key_at(ps, k));
    let m = choose|m: int| 0 <= m < ps.len() && ps[m].0 == k;
    if m < n - 1 {
        lemma_next_cut_at(offsets, m);
        assert(next_cut(offsets@, k, ps[m + 1].0));
        assert(early_key(ps, n - 1, k));
    } else {
        if has_next_cut(offsets@, k) {
            let e = choose|e: u32| #[trigger] next_cut(offsets@, k, e);
            assert(crate::offset_map::has_key_at(ps, e));
            let m2 = choose|m2: int| 0 <= m2 < ps.len() && ps[m2].0 == e;
            if m2 < m {
                assert(ps[m2].0 < ps[m].0);
            }
        }
        if early_key(ps, n - 1, k) {
            let j = choose|j: int| 0 <= j < n - 1 && #[trigger] ps[j].0 == k;
            assert(ps[j].0 < ps[m].0);
        }
    }
}

/// Cut the file into structs between consecutive struct starts.  A start
/// at or past the end of the file yields nothing; the last start only ends
/// the struct before it.  Returns each struct's `(start, next start)` in
/// slot order and the start → slot map.
#[verifier::rlimit(60)]
fn carve(b: &[u8], offsets: &OffsetMap<bool>, pool: &mut StructPool) -> (res: (
    Vec<(u32, u32)>,
    OffsetMap<StructRef>,
))
    requires
        old(pool).wf(),
        old(pool).len() == 0,
        offsets.wf(),
    ensures
        final(pool).wf(),
        res.0@.len() == final(pool).len(),
        res.1.wf(),
        forall|k: u32|
            #[trigger] res.1@.contains_key(k) ==> res.1@[k] < final(pool).len() && struct_at(
                final(pool).at(res.1@[k] as int),
                b@,
                k,
            ),
        forall|q: int| 0 <= q < final(pool).len() ==> #[trigger] carved_slot(final(pool), res.0@, b@, q),
        forall|k: u32|
            #[trigger] res.1@.contains_key(k) <==> (offsets@.contains_key(k) && k < b@.len() && has_next_cut(
                offsets@,
                k,
            )),
        forall|q: int|
            0 <= q < final(pool).len() ==> #[trigger] slot_span(
                final(pool),
                res.0@,
                res.1@,
                offsets@,
                b@.len() as int,
                q,
            ),
        forall|k: u32| #[trigger] res.1@.contains_key(k) ==> res.0@[res.1@[k] as int].0 == k,
{
    proof {
        offsets.lemma_view();
    }
    let n = offsets.len();
    let mut spans: Vec<(u32, u32)> = Vec::new();
    let mut ots: OffsetMap<StructRef> = OffsetMap::new();
    if n == 0 {
        proof {
            assert forall|k: u32| #[trigger] ots@.contains_key(k) <==> (offsets@.contains_key(k) && k < b@.len()
                && has_next_cut(offsets@, k)) by {
                if offsets@.contains_key(k) {
                    assert(crate::offset_map::has_key_at(offsets.pairs(), k));
                }
            }
        }
        return (spans, ots);
    }
    let mut w: usize = 0;
    while w + 1 < n
        invariant
            offsets.wf(),
            crate::offset_map::keys_increasing(offsets.pairs()),
            n == offsets.pairs().len(),
            n >= 1,
            w + 1 <= n,
            pool.wf(),
            spans@.len() == pool.len(),
            ots.wf(),
            forall|k: u32|
                #[trigger] ots@.contains_key(k) ==> ots@[k] < pool.len() && struct_at(
                    pool.at(ots@[k] as int),
                    b@,
                    k,
                ) && k < offsets.pairs()[w as int].0,
            forall|q: int| 0 <= q < pool.len() ==> #[trigger] carved_slot(pool, spans@, b@, q),
            forall|k: u32| #[trigger] ots@.contains_key(k) <==> (early_key(offsets.pairs(), w as int, k) && k < b@.len()),
            forall|q: int|
                0 <= q < pool.len() ==> #[trigger] slot_span(pool, spans@, ots@, offsets@, b@.len() as int, q),
            forall|k: u32| #[trigger] ots@.contains_key(k) ==> spans@[ots@[k] as int].0 == k,
        decreases n - w,
    {
        let (start, _) = offsets.entry(w);
        let (end, _) = offsets.entry(w + 1);
        assert(start < end);
        proof {
            lemma_next_cut_at(offsets, w as int);
        }
        let ghost w0 = w as int;
        let ghost ots_0 = ots@;
        w = w + 1;
        if start as usize >= b.len() {
            proof {
                assert forall|k: u32| #[trigger] ots@.contains_key(k) <==> (early_key(offsets.pairs(), w as int, k)
                    && k < b@.len()) by {
                    if early_key(offsets.pairs(), w as int, k) && !early_key(offsets.pairs(), w0, k) {
                        let j = choose|j: int| 0 <= j < w && #[trigger] offsets.pairs()[j].0 == k;
                        assert(j == w0);
                    }
                    if early_key(offsets.pairs(), w0, k) {
                        let j = choose|j: int| 0 <= j < w0 && #[trigger] offsets.pairs()[j].0 == k;
                        assert(offsets.pairs()[j].0 == k);
                    }
                }
            }
            continue;
        }
        let cap: usize = if (end as usize) < b.len() {
            end as usize
        } else {
            b.len()
        };
        let slice = vstd::slice::slice_subrange(b, start as usize, cap);
        let s = HsdStruct::from_bytes(vstd::slice::slice_to_vec(slice));
        let ghost p0 = *pool;
        let r = s.into_ref(pool);
        proof {
            assert(struct_at(pool.at(r as int), b@, start));
        }
        let ghost sp0 = spans@;
        spans.push((start, end));
        ots.insert(start, r);
        proof {
            assert(!ots_0.contains_key(start));
            assert forall|q: int| 0 <= q < pool.len() implies #[trigger] carved_slot(
                pool,
                spans@,
                b@,
                q,
            ) by {
                if q < r {
                    assert(carved_slot(&p0, sp0, b@, q));
                    assert(p0.at(q) == pool.at(q));
                    assert(spans@[q] == sp0[q]);
                }
            }
            assert forall|k: u32|
                #[trigger] ots@.contains_key(k) implies ots@[k] < pool.len() && struct_at(
                pool.at(ots@[k] as int),
                b@,
                k,
            ) && k < offsets.pairs()[w as int].0 by {
                if k != start {
                    assert(p0.at(ots@[k] as int) == pool.at(ots@[k] as int));
                }
            }
            assert forall|k: u32| #[trigger] ots@.contains_key(k) <==> (early_key(offsets.pairs(), w as int, k)
                && k < b@.len()) by {
                if early_key(offsets.pairs(), w as int, k) && !early_key(offsets.pairs(), w0, k) {
                    let j = choose|j: int| 0 <= j < w && #[trigger] offsets.pairs()[j].0 == k;
                    assert(j == w0);
                }
                if early_key(offsets.pairs(), w0, k) {
                    let j = choose|j: int| 0 <= j < w0 && #[trigger] offsets.pairs()[j].0 == k;
                    assert(offsets.pairs()[j].0 == k);
                }
                if k == start {
                    assert(offsets.pairs()[w0].0 == k);
                }
            }
            assert forall|q: int| 0 <= q < pool.len() implies #[trigger] slot_span(
                pool,
                spans@,
                ots@,
                offsets@,
                b@.len() as int,
                q,
            ) by {
                if q < r {
                    assert(slot_span(&p0, sp0, ots_0, offsets@, b@.len() as int, q));
                    assert(p0.at(q) == pool.at(q));
                    assert(spans@[q] == sp0[q]);
                    assert(sp0[q].0 != start);
                } else {
                    assert(spans@[q] == (start, end));
                }
            }
            assert forall|k: u32| #[trigger] ots@.contains_key(k) implies spans@[ots@[k] as int].0 == k by {
                if k != start {
                    assert(ots_0.contains_key(k));
                    assert(ots_0[k] < r);
                    assert(spans@[ots_0[k] as int] == sp0[ots_0[k] as int]);
                }
            }
        }
    }
    proof {
        assert forall|k: u32| #[trigger] ots@.contains_key(k) <==> (offsets@.contains_key(k) && k < b@.len()
            && has_next_cut(offsets@, k)) by {
            if offsets@.contains_key(k) {
                lemma_has_next_cut(offsets, k);
            }
            if early_key(offsets.pairs(), w as int, k) {
                let j = choose|j: int| 0 <= j < w && #[trigger] offsets.pairs()[j].0 == k;
                assert(crate::offset_map::has_key_at(offsets.pairs(), k));
            }
        }
    }
    (spans, ots)
}

/// `p` holds the structs of `p0` with the same bytes and flags.
pub open spec fn same_but_refs(p: &StructPool, p0: &StructPool) -> bool {
    &&& p.len() == p0.len()
    &&& forall|x: int|
        0 <= x < p0.len() ==> #[trigger] p.at(x).bytes() == p0.at(x).bytes() && p.at(x).same_flags(
            &p0.at(x),
        )
}

/// Slot `q` of `p` is the `q`-th struct cut from `b`, still without
/// references.
pub open spec fn carved_slot(p: &StructPool, spans: Seq<(u32, u32)>, b: Seq<u8>, q: int) -> bool {
    &&& p.at(q).refs() == Map::<u32, StructRef>::empty()
    &&& p.at(q).default_flags()
    &&& spans[q].0 < spans[q].1
    &&& struct_at(p.at(q), b, spans[q].0)
}

/// The pointer at `st + inner`, relocated to a struct start `ots` knows,
/// lies before `end` in a struct of `len` bytes with room for its 4 bytes.
pub open spec fn wire_ok(
    relocs: Map<u32, u32>,
    ots: Map<u32, StructRef>,
    st: u32,
    end: u32,
    len: int,
    inner: u32,
) -> bool {
    &&& st + inner < end
    &&& relocs.contains_key((st + inner) as u32)
    &&& inner + 4 <= len
    &&& ots.contains_key(relocs[(st + inner) as u32])
}

/// The references wired into a struct of `len` bytes cut at `[st, end)`.
pub open spec fn wired(relocs: Map<u32, u32>, ots: Map<u32, StructRef>, st: u32, end: u32, len: int) -> Map<
    u32,
    StructRef,
> {
    Map::new(
        |inner: u32| wire_ok(relocs, ots, st, end, len, inner),
        |inner: u32| ots[relocs[(st + inner) as u32]],
    )
}

/// As `wired`, for the pointers among the first `j` relocations.
pub open spec fn wired_upto(
    rp: Seq<(u32, u32)>,
    j: int,
    relocs: Map<u32, u32>,
    ots: Map<u32, StructRef>,
    st: u32,
    end: u32,
    len: int,
) -> Map<u32, StructRef> {
    Map::new(
        |inner: u32| wire_ok(relocs, ots, st, end, len, inner) && early_pos(rp, j, (st + inner) as u32),
        |inner: u32| ots[relocs[(st + inner) as u32]],
    )
}

/// The first `j` relocations include position `pos`.
pub open spec fn early_pos(rp: Seq<(u32, u32)>, j: int, pos: u32) -> bool {
    exists|m: int| 0 <= m < j && #[trigger] rp[m].0 == pos
}

proof fn lemma_wired_done(
    relocs: &OffsetMap<u32>,
    ots: Map<u32, StructRef>,
    st: u32,
    end: u32,
    len: int,
    j: int,
)
    requires
        relocs.wf(),
        0 <= j <= relocs.pairs().len(),
        j == relocs.pairs().len() || (j >= 1 && relocs.pairs()[j - 1].0 >= end),
    ensures
        wired_upto(relocs.pairs(), j, relocs@, ots, st, end, len) == wired(relocs@, ots, st, end, len),
{
    relocs.lemma_view();
    let rp = relocs.pairs();
    assert forall|inner: u32| #[trigger] wire_ok(relocs@, ots, st, end, len, inner) implies early_pos(
        rp,
        j,
        (st + inner) as u32,
    ) by {
        let pos = (st + inner) as u32;
        assert(crate::offset_map::has_key_at(rp, pos));
        let m0 = choose|m0: int| 0 <= m0 < rp.len() && rp[m0].0 == pos;
        if m0 >= j {
            assert(rp[j - 1].0 <= rp[m0].0);
        }
    }
    assert(wired_upto(rp, j, relocs@, ots, st, end, len) =~= wired(relocs@, ots, st, end, len));
}

/// Wire the pointers of `relocs` into the structs: a pointer at `pos` inside
/// the span of struct `q` becomes a reference of `q` at `pos - start` when
/// its 4 bytes fit in the struct and its target starts a struct.
#[verifier::rlimit(60)]
fn wire(
    spans: &Vec<(u32, u32)>,
    relocs: &OffsetMap<u32>,
    ots: &OffsetMap<StructRef>,
    pool: &mut StructPool,
)
    requires
        old(pool).wf(),
        spans@.len() == old(pool).len(),
        ots.wf(),
        relocs.wf(),
        forall|k: u32| #[trigger] ots@.contains_key(k) ==> ots@[k] < old(pool).len(),
        slots_fit(old(pool)),
        forall|x: int| 0 <= x < old(pool).len() ==> #[trigger] old(pool).at(x).refs() == Map::<u32, StructRef>::empty(),
    ensures
        final(pool).wf(),
        final(pool).len() == old(pool).len(),
        same_but_refs(final(pool), old(pool)),
        slots_fit(final(pool)),
        forall|x: int|
            0 <= x < old(pool).len() ==> #[trigger] final(pool).at(x).refs() == wired(
                relocs@,
                ots@,
                spans@[x].0,
                spans@[x].1,
                old(pool).at(x).bytes().len() as int,
            ),
{
    let ghost p0 = *pool;
    proof {
        relocs.lemma_view();
    }
    let n = spans.len();
    let m = relocs.len();
    let mut q: usize = 0;
    while q < n
        invariant
            n == spans@.len(),
            n == pool.len(),
            m == relocs.pairs().len(),
            ots.wf(),
            relocs.wf(),
            forall|k: u32| #[trigger] ots@.contains_key(k) ==> ots@[k] < pool.len(),
            pool.wf(),
            p0.len() == pool.len(),
            same_but_refs(pool, &p0),
            slots_fit(pool),
            q <= n,
            forall|x: int|
                0 <= x < q ==> #[trigger] pool.at(x).refs() == wired(
                    relocs@,
                    ots@,
                    spans@[x].0,
                    spans@[x].1,
                    p0.at(x).bytes().len() as int,
                ),
            forall|x: int| q <= x < n ==> #[trigger] pool.at(x).refs() == Map::<u32, StructRef>::empty(),
        decreases n - q,
    {
        let (start, end) = spans[q];
        let ghost len = p0.at(q as int).bytes().len() as int;
        proof {
            assert(wired_upto(relocs.pairs(), 0, relocs@, ots@, start, end, len) =~= Map::<u32, StructRef>::empty());
            lemma_wired_done(relocs, ots@, start, end, len, m as int);
        }
        let mut j: usize = 0;
        while j < m
            invariant
                n == spans@.len(),
                n == pool.len(),
                q < n,
                m == relocs.pairs().len(),
                ots.wf(),
                relocs.wf(),
                forall|k: u32| #[trigger] ots@.contains_key(k) ==> ots@[k] < pool.len(),
                pool.wf(),
                p0.len() == pool.len(),
                same_but_refs(pool, &p0),
                slots_fit(pool),
                j <= m,
                (start, end) == spans@[q as int],
                len == p0.at(q as int).bytes().len(),
                forall|x: int|
                    0 <= x < q ==> #[trigger] pool.at(x).refs() == wired(
                        relocs@,
                        ots@,
                        spans@[x].0,
                        spans@[x].1,
                        p0.at(x).bytes().len() as int,
                    ),
                forall|x: int| q < x < n ==> #[trigger] pool.at(x).refs() == Map::<u32, StructRef>::empty(),
                pool.at(q as int).refs() == wired_upto(relocs.pairs(), j as int, relocs@, ots@, start, end, len),
                wired_upto(relocs.pairs(), m as int, relocs@, ots@, start, end, len) == wired(relocs@, ots@, start, end, len),
            ensures
                pool.at(q as int).refs() == wired(relocs@, ots@, start, end, len),
                n == pool.len(),
                pool.wf(),
                p0.len() == pool.len(),
                same_but_refs(pool, &p0),
                slots_fit(pool),
                forall|x: int|
                    0 <= x < q ==> #[trigger] pool.at(x).refs() == wired(
                        relocs@,
                        ots@,
                        spans@[x].0,
                        spans@[x].1,
                        p0.at(x).bytes().len() as int,
                    ),
                forall|x: int| q < x < n ==> #[trigger] pool.at(x).refs() == Map::<u32, StructRef>::empty(),
            decreases m - j,
        {
            let (pos, target) = relocs.entry(j);
            let ghost jj = j as int;
            let ghost before = pool.at(q as int).refs();
            proof {
                relocs.lemma_view();
                assert(relocs@[pos] == target);
            }
            j = j + 1;
            if pos < start {
                proof {
                    assert(wired_upto(relocs.pairs(), j as int, relocs@, ots@, start, end, len) =~= before) by {
                        assert forall|inner: u32| #[trigger] early_pos(relocs.pairs(), j as int, (start + inner) as u32)
                            && wire_ok(relocs@, ots@, start, end, len, inner) implies early_pos(
                            relocs.pairs(),
                            jj,
                            (start + inner) as u32,
                        ) by {
                            let mm = choose|mm: int| 0 <= mm < j && #[trigger] relocs.pairs()[mm].0 == (start + inner) as u32;
                            assert(mm != jj);
                        }
                        assert forall|inner: u32| #[trigger] early_pos(relocs.pairs(), jj, (start + inner) as u32) implies early_pos(
                            relocs.pairs(),
                            j as int,
                            (start + inner) as u32,
                        ) by {
                            let mm = choose|mm: int| 0 <= mm < jj && #[trigger] relocs.pairs()[mm].0 == (start + inner) as u32;
                            assert(relocs.pairs()[mm].0 == (start + inner) as u32);
                        }
                    }
                }
                continue;
            }
            if pos >= end {
                proof {
                    lemma_wired_done(relocs, ots@, start, end, len, j as int);
                    assert(wired_upto(relocs.pairs(), j as int, relocs@, ots@, start, end, len) =~= before) by {
                        assert forall|inner: u32| #[trigger] early_pos(relocs.pairs(), j as int, (start + inner) as u32)
                            && wire_ok(relocs@, ots@, start, end, len, inner) implies early_pos(
                            relocs.pairs(),
                            jj,
                            (start + inner) as u32,
                        ) by {
                            let mm = choose|mm: int| 0 <= mm < j && #[trigger] relocs.pairs()[mm].0 == (start + inner) as u32;
                            assert(mm != jj);
                        }
                        assert forall|inner: u32| #[trigger] early_pos(relocs.pairs(), jj, (start + inner) as u32) implies early_pos(
                            relocs.pairs(),
                            j as int,
                            (start + inner) as u32,
                        ) by {
                            let mm = choose|mm: int| 0 <= mm < jj && #[trigger] relocs.pairs()[mm].0 == (start + inner) as u32;
                            assert(relocs.pairs()[mm].0 == (start + inner) as u32);
                        }
                    }
                }
                break;
            }
            let inner = pos - start;
            if inner as u64 + 4 > pool.get(q).len() as u64 {
                proof {
                    assert(pool.at(q as int).bytes().len() == len);
                    assert(wired_upto(relocs.pairs(), j as int, relocs@, ots@, start, end, len) =~= before) by {
                        assert forall|inn: u32| #[trigger] early_pos(relocs.pairs(), j as int, (start + inn) as u32)
                            && wire_ok(relocs@, ots@, start, end, len, inn) implies early_pos(
                            relocs.pairs(),
                            jj,
                            (start + inn) as u32,
                        ) by {
                            let mm = choose|mm: int| 0 <= mm < j && #[trigger] relocs.pairs()[mm].0 == (start + inn) as u32;
                            if mm == jj {
                                assert(inn == inner);
                            }
                        }
                        assert forall|inn: u32| #[trigger] early_pos(relocs.pairs(), jj, (start + inn) as u32) implies early_pos(
                            relocs.pairs(),
                            j as int,
                            (start + inn) as u32,
                        ) by {
                            let mm = choose|mm: int| 0 <= mm < jj && #[trigger] relocs.pairs()[mm].0 == (start + inn) as u32;
                            assert(relocs.pairs()[mm].0 == (start + inn) as u32);
                        }
                    }
                }
                continue;
            }
            match ots.get(target) {
                Some(t) => {
                    let ghost p1 = *pool;
                    pool.set_reference(q, inner, Some(t));
                    proof {
                        assert forall|x: int, k: u32|
                            0 <= x < pool.len() && #[trigger] pool.at(x).refs().contains_key(
                                k,
                            ) implies k + 4 <= pool.at(x).bytes().len() by {
                            if x != q {
                                assert(pool.at(x) == p1.at(x));
                            } else if k != inner {
                                assert(p1.at(x).refs().contains_key(k));
                            }
                        }
                        assert forall|x: int| 0 <= x < p0.len() implies #[trigger] pool.at(x).bytes()
                            == p0.at(x).bytes() && pool.at(x).same_flags(&p0.at(x)) by {
                            if x != q {
                                assert(pool.at(x) == p1.at(x));
                            }
                        }
                        assert(same_but_refs(pool, &p0));
                        assert forall|x: int| 0 <= x < q implies #[trigger] pool.at(x).refs() == wired(
                            relocs@,
                            ots@,
                            spans@[x].0,
                            spans@[x].1,
                            p0.at(x).bytes().len() as int,
                        ) by {
                            assert(pool.at(x) == p1.at(x));
                        }
                        assert forall|x: int| q < x < n implies #[trigger] pool.at(x).refs() == Map::<u32, StructRef>::empty() by {
                            assert(pool.at(x) == p1.at(x));
                        }
                        assert(pool.at(q as int).bytes().len() == len);
                        assert(wired_upto(relocs.pairs(), j as int, relocs@, ots@, start, end, len) =~= before.insert(inner, t)) by {
                            assert(wire_ok(relocs@, ots@, start, end, len, inner));
                            assert(early_pos(relocs.pairs(), j as int, (start + inner) as u32)) by {
                                assert(relocs.pairs()[jj].0 == (start + inner) as u32);
                            }
                            assert forall|inn: u32| #[trigger] early_pos(relocs.pairs(), j as int, (start + inn) as u32)
                                && wire_ok(relocs@, ots@, start, end, len, inn) && inn != inner implies early_pos(
                                relocs.pairs(),
                                jj,
                                (start + inn) as u32,
                            ) by {
                                let mm = choose|mm: int| 0 <= mm < j && #[trigger] relocs.pairs()[mm].0 == (start + inn) as u32;
                                if mm == jj {
                                    assert(inn == inner);
                                }
                            }
                            assert forall|inn: u32| #[trigger] early_pos(relocs.pairs(), jj, (start + inn) as u32) implies early_pos(
                                relocs.pairs(),
                                j as int,
                                (start + inn) as u32,
                            ) by {
                                let mm = choose|mm: int| 0 <= mm < jj && #[trigger] relocs.pairs()[mm].0 == (start + inn) as u32;
                                assert(relocs.pairs()[mm].0 == (start + inn) as u32);
                            }
                        }
                    }
                },
                None => {
                    proof {
                        assert(!ots@.contains_key(target));
                        assert(wired_upto(relocs.pairs(), j as int, relocs@, ots@, start, end, len) =~= before) by {
                            assert forall|inn: u32| #[trigger] early_pos(relocs.pairs(), j as int, (start + inn) as u32)
                                && wire_ok(relocs@, ots@, start, end, len, inn) implies early_pos(
                                relocs.pairs(),
                                jj,
                                (start + inn) as u32,
                            ) by {
                                let mm = choose|mm: int| 0 <= mm < j && #[trigger] relocs.pairs()[mm].0 == (start + inn) as u32;
                                if mm == jj {
                                    assert(inn == inner);
                                }
                            }
                            assert forall|inn: u32| #[trigger] early_pos(relocs.pairs(), jj, (start + inn) as u32) implies early_pos(
                                relocs.pairs(),
                                j as int,
                                (start + inn) as u32,
                            ) by {
                                let mm = choose|mm: int| 0 <= mm < jj && #[trigger] relocs.pairs()[mm].0 == (start + inn) as u32;
                                assert(relocs.pairs()[mm].0 == (start + inn) as u32);
                            }
                        }
                    }
                },
            }
        }
        proof {
            if j == m {
                lemma_wired_done(relocs, ots@, start, end, len, j as int);
            }
        }
        q = q + 1;
    }
}

/// Slot `x` of `p` is slot `x` of `p0` with the parse flags applied when
/// `x < done`, untouched otherwise.
pub open spec fn marked_slot(p: &StructPool, p0: &StructPool, x: int, done: int) -> bool {
    &&& p.at(x).bytes() == p0.at(x).bytes()
    &&& p.at(x).refs() == p0.at(x).refs()
    &&& x < done ==> parsed_flags(p.at(x))
    &&& x >= done ==> p.at(x) == p0.at(x)
}

/// Flag as 0x20-aligned buffers the structs without references that are
/// larger than 0x40 bytes.
fn mark_buffers(pool: &mut StructPool)
    requires
        old(pool).wf(),
        forall|q: int| 0 <= q < old(pool).len() ==> #[trigger] old(pool).at(q).default_flags(),
    ensures
        final(pool).wf(),
        final(pool).len() == old(pool).len(),
        forall|q: int| 0 <= q < old(pool).len() ==> #[trigger] marked_slot(final(pool), old(pool), q, old(pool).len() as int),
{
    let ghost p0 = *pool;
    let n = pool.len_exec();
    let mut q: usize = 0;
    while q < n
        invariant
            n == pool.len(),
            p0.len() == n,
            pool.wf(),
            q <= n,
            forall|x: int| 0 <= x < n ==> #[trigger] marked_slot(pool, &p0, x, q as int),
            forall|x: int| 0 <= x < n ==> #[trigger] p0.at(x).default_flags(),
        decreases n - q,
    {
        let empty = pool.get(q).references().is_empty();
        let big = pool.get(q).len() > 0x40;
        let ghost p1 = *pool;
        proof {
            assert(marked_slot(pool, &p0, q as int, q as int));
            assert(p0.at(q as int).default_flags());
        }
        if empty && big {
            let mut t = pool.take(q);
            t.set_is_buffer_aligned(true);
            pool.put(q, t);
        }
        proof {
            assert(parsed_flags(pool.at(q as int)));
            assert forall|x: int| 0 <= x < n implies #[trigger] marked_slot(
                pool,
                &p0,
                x,
                q + 1,
            ) by {
                if x != q {
                    assert(pool.at(x) == p1.at(x));
                    assert(marked_slot(&p1, &p0, x, q as int));
                }
            }
        }
        q = q + 1;
    }
}

/// Depth-first pre-order walk from each of `starts` in turn, sharing one
/// visited set: `seen` marks exactly the slots listed in `out`.
pub(crate) fn walk_from(pool: &StructPool, starts: &Vec<StructRef>) -> (res: (Vec<bool>, Vec<StructRef>))
    requires
        pool.wf(),
        forall|i: int| 0 <= i < starts@.len() ==> #[trigger] starts@[i] < pool.len(),
    ensures
        res.0@.len() == pool.len(),
        seen_matches(res.0@, res.1@),
        dfs_order_ok(pool, res.1@, starts@.to_set()),
        forall|x: int| 0 <= x < starts@.len() ==> res.0@[#[trigger] starts@[x] as int],
        forall|j: int, k: u32|
            0 <= j < res.1@.len() && #[trigger] pool.at(res.1@[j] as int).refs().contains_key(k)
                ==> res.1@.contains(pool.at(res.1@[j] as int).refs()[k]),
{
    let n = pool.len_exec();
    let mut seen: Vec<bool> = vec![false; n];
    let mut out: Vec<StructRef> = Vec::new();
    let ghost st = starts@.to_set();
    proof {
        assert forall|q: int| 0 <= q < seen@.len() implies (#[trigger] seen@[q] <==> out@.contains(
            q as StructRef,
        )) by {}
    }
    let mut i: usize = 0;
    while i < starts.len()
        invariant
            pool.wf(),
            n == pool.len(),
            st == starts@.to_set(),
            forall|x: int| 0 <= x < starts@.len() ==> #[trigger] starts@[x] < pool.len(),
            seen@.len() == n,
            seen_matches(seen@, out@),
            dfs_order_ok(pool, out@, st),
            forall|x: int| 0 <= x < i ==> seen@[#[trigger] starts@[x] as int],
            i <= starts@.len(),
            forall|j: int, k: u32|
                0 <= j < out@.len() && #[trigger] pool.at(out@[j] as int).refs().contains_key(k)
                    ==> out@.contains(pool.at(out@[j] as int).refs()[k]),
        decreases starts@.len() - i,
    {
        let cur = starts[i];
        let ghost out0 = out@;
        let ghost seen0 = seen@;
        proof {
            assert(st.contains(starts@[i as int]));
        }
        proof {
            lemma_count_false_le(seen@);
        }
        walk(pool, cur, &mut seen, &mut out, Ghost(st), Ghost((pool.len() + 1) as nat));
        proof {
            assert forall|j: int, k: u32|
                0 <= j < out@.len() && #[trigger] pool.at(out@[j] as int).refs().contains_key(k)
                    implies out@.contains(pool.at(out@[j] as int).refs()[k]) by {
                if j < out0.len() {
                    assert(out@.subrange(0, out0.len() as int) == out0);
                    assert(out0[j] == out@[j]);
                    let t = pool.at(out@[j] as int).refs()[k];
                    assert(out0.contains(t));
                    let m = choose|m: int| 0 <= m < out0.len() && out0[m] == t;
                    assert(out@[m] == t);
                }
            }
            assert forall|x: int| 0 <= x < i + 1 implies seen@[#[trigger] starts@[x] as int] by {
                if x < i {
                    assert(seen0[starts@[x] as int]);
                }
            }
        }
        i = i + 1;
    }
    (seen, out)
}

/// `x` is reached from `starts` through references: some list of structs,
/// each a start or pointed to by an earlier one, holds it.
pub open spec fn reached(pool: &StructPool, starts: Set<StructRef>, x: StructRef) -> bool {
    exists|w: Seq<StructRef>| #[trigger] dfs_order_ok(pool, w, starts) && w.contains(x)
}

/// The slots reachable from `starts`, in ascending slot order.
fn reachable_order(pool: &StructPool, starts: &Vec<StructRef>) -> (order: Vec<StructRef>)
    requires
        pool.wf(),
        forall|i: int| 0 <= i < starts@.len() ==> #[trigger] starts@[i] < pool.len(),
    ensures
        forall|j: int| 0 <= j < order@.len() ==> reached(pool, starts@.to_set(), #[trigger] order@[j]),
        order@.no_duplicates(),
        closed_under_refs(pool, order@),
        forall|i: int| 0 <= i < starts@.len() ==> order@.contains(#[trigger] starts@[i]),
        forall|j: int| 0 <= j < order@.len() ==> #[trigger] order@[j] < pool.len(),
{
    let n = pool.len_exec();
    let (seen, out) = walk_from(pool, starts);
    let mut order: Vec<StructRef> = Vec::new();
    let mut q: usize = 0;
    while q < n
        invariant
            n == pool.len(),
            seen@.len() == n,
            q <= n,
            forall|a: int, c: int| 0 <= a < c < order@.len() ==> order@[a] < order@[c],
            forall|j: int| 0 <= j < order@.len() ==> #[trigger] order@[j] < q,
            forall|x: int| 0 <= x < q ==> (seen@[x] <==> order@.contains(x as StructRef)),
        decreases n - q,
    {
        let ghost o0 = order@;
        if seen[q] {
            order.push(q);
        }
        proof {
            assert forall|x: int| 0 <= x < q + 1 implies (seen@[x] <==> order@.contains(
                x as StructRef,
            )) by {
                if x < q {
                    if o0.contains(x as StructRef) {
                        let m = choose|m: int| 0 <= m < o0.len() && o0[m] == x as StructRef;
                        assert(order@[m] == x as StructRef);
                    }
                    if order@.contains(x as StructRef) {
                        let m = choose|m: int| 0 <= m < order@.len() && order@[m] == x as StructRef;
                        if m < o0.len() {
                            assert(o0[m] == order@[m]);
                        }
                    }
                } else {
                    if order@.contains(x as StructRef) {
                        let m = choose|m: int| 0 <= m < order@.len() && order@[m] == x as StructRef;
                        if m < o0.len() {
                            assert(o0[m] == order@[m]);
                            assert(o0[m] < q);
                        }
                    }
                    if seen@[x] {
                        assert(order@[o0.len() as int] == x as StructRef);
                    }
                }
            }
        }
        q = q + 1;
    }
    proof {
        assert forall|j: int| 0 <= j < order@.len() implies reached(pool, starts@.to_set(), #[trigger] order@[j]) by {
            let x = order@[j];
            assert(order@.contains(x));
            assert(seen@[x as int]);
            assert(out@.contains(x));
            assert(dfs_order_ok(pool, out@, starts@.to_set()));
        }
        assert forall|j: int, k: u32|
            0 <= j < order@.len() && #[trigger] pool.at(order@[j] as int).refs().contains_key(k)
                implies order@.contains(pool.at(order@[j] as int).refs()[k]) by {
            let x = order@[j];
            assert(order@.contains(x));
            assert(seen@[x as int]);
            assert(out@.contains(x));
            let m = choose|m: int| 0 <= m < out@.len() && out@[m] == x;
            assert(pool.at(out@[m] as int).refs().contains_key(k));
            let t = pool.at(x as int).refs()[k];
            assert(out@.contains(t));
            assert(t < n);
            assert(seen@[t as int]);
        }
        assert forall|x: int| 0 <= x < starts@.len() implies order@.contains(
            #[trigger] starts@[x],
        ) by {
            assert(seen@[starts@[x] as int]);
        }
        assert forall|a: int, c: int|
            0 <= a < order@.len() && 0 <= c < order@.len() && a != c implies order@[a]
            != order@[c] by {
            if a < c {
                assert(order@[a] < order@[c]);
            } else {
                assert(order@[c] < order@[a]);
            }
        }
    }
    order
}

/// Pair each symbol's name with the struct starting at its offset.
fn resolve(offs: &Vec<u32>, names: Vec<String>, ots: &OffsetMap<StructRef>, missing: &'static str) -> (r:
    Result<Vec<RootNode>>)
    requires
        offs@.len() == names@.len(),
        ots.wf(),
    ensures
        r matches Ok(v) ==> v@.len() == offs@.len() && forall|i: int|
            #![trigger v@[i]]
            0 <= i < v@.len() ==> v@[i].name@ == names@[i]@ && ots@.contains_key(offs@[i])
                && v@[i].data == ots@[offs@[i]],
        r is Ok <==> forall|i: int| 0 <= i < offs@.len() ==> ots@.contains_key(#[trigger] offs@[i]),
{
    let ghost names0 = names@;
    let mut names = names;
    let mut out: Vec<RootNode> = Vec::new();
    let mut i: usize = 0;
    while i < offs.len()
        invariant
            offs@.len() == names0.len(),
            i <= offs@.len(),
            names@ == names0.skip(i as int),
            ots.wf(),
            out@.len() == i,
            forall|j: int|
                #![trigger out@[j]]
                0 <= j < i ==> out@[j].name@ == names0[j]@ && ots@.contains_key(offs@[j])
                    && out@[j].data == ots@[offs@[j]],
            forall|j: int| 0 <= j < i ==> ots@.contains_key(#[trigger] offs@[j]),
        decreases offs@.len() - i,
    {
        let off = offs[i];
        let data = match ots.get(off) {
            Some(t) => t,
            None => {
                assert(!ots@.contains_key(offs@[i as int]));
                return Err(HsdError::malformed(off as u64, missing));
            },
        };
        let name = names.remove(0);
        proof {
            assert(name == names0[i as int]);
            assert(names@ =~= names0.skip(i + 1));
        }
        out.push(RootNode { name, data });
        i = i + 1;
    }
    Ok(out)
}

/// Symbol entry `k` of `b` is readable and, where `chains`, the chain that
/// starts at its data ends.
pub open spec fn symbol_ok(b: Seq<u8>, k: int, chains: bool) -> bool {
    &&& symbol_readable(b, k)
    &&& chains ==> chain_ends(b, symbol_data_off(b, symbol_entry(b, k)))
}

/// `k` is a link of the chain of one of the symbols `first..first + count`.
pub open spec fn linked_from(b: Seq<u8>, first: int, count: int, k: u32) -> bool {
    exists|j: int| 0 <= j < count && #[trigger] chain_link(b, symbol_data_off(b, symbol_entry(b, first + j)), k)
}

/// Read `count` symbol entries from index `first` on; with `chains`, walk
/// the reference chain each one owns.
fn read_symbols(
    bytes: &[u8],
    first: u32,
    count: u32,
    chains: bool,
    offsets: &mut OffsetMap<bool>,
    relocs: &mut OffsetMap<u32>,
) -> (r: Result<(Vec<u32>, Vec<String>)>)
    requires
        bytes@.len() >= HEADER_SIZE,
        reloc_table_pos(bytes@) <= u32::MAX,
        old(offsets).wf(),
        old(relocs).wf(),
    ensures
        final(offsets).wf(),
        final(relocs).wf(),
        r matches Ok((offs, names)) ==> offs@.len() == count && names@.len() == count && forall|
            j: int,
        |
            0 <= j < count ==> symbol_read(bytes@, first + j, #[trigger] offs@[j], names@[j]@),
        !chains || count == 0 ==> final(offsets)@ == old(offsets)@ && final(relocs)@ == old(relocs)@,
        r is Ok <==> forall|j: int| 0 <= j < count ==> #[trigger] symbol_ok(bytes@, first + j, chains),
        r is Ok && chains ==> forall|k: u32|
            #[trigger] final(offsets)@.contains_key(k) <==> (old(offsets)@.contains_key(k) || linked_from(
                bytes@,
                first as int,
                count as int,
                k,
            )),
{
    let ghost o0 = offsets@;
    let ghost r0 = relocs@;
    let mut offs: Vec<u32> = Vec::new();
    let mut names: Vec<String> = Vec::new();
    let mut i: u32 = 0;
    while i < count
        invariant
            o0 == old(offsets)@,
            r0 == old(relocs)@,
            !chains ==> offsets@ == o0 && relocs@ == r0,
            i == 0 ==> offsets@ == o0 && relocs@ == r0,
            bytes@.len() >= HEADER_SIZE,
            reloc_table_pos(bytes@) <= u32::MAX,
            offsets.wf(),
            relocs.wf(),
            i <= count,
            offs@.len() == i,
            names@.len() == i,
            forall|j: int|
                0 <= j < i ==> symbol_read(bytes@, first + j, #[trigger] offs@[j], names@[j]@),
            forall|j: int| 0 <= j < i ==> #[trigger] symbol_ok(bytes@, first + j, chains),
            chains ==> forall|k: u32|
                #[trigger] offsets@.contains_key(k) <==> (o0.contains_key(k) || linked_from(
                    bytes@,
                    first as int,
                    i as int,
                    k,
                )),
        decreases count - i,
    {
        let ghost oi = offsets@;
        let ghost ri = relocs@;
        let (off, name) = match read_symbol(bytes, first as u64 + i as u64) {
            Ok(v) => v,
            Err(e) => {
                assert(!symbol_ok(bytes@, first + i, chains));
                return Err(e);
            },
        };
        offs.push(off);
        names.push(name);
        if chains {
            match walk_reference_chain(bytes, off, offsets, relocs) {
                Ok(()) => {},
                Err(e) => {
                    assert(!symbol_ok(bytes@, first + i, chains));
                    return Err(e);
                },
            }
        }
        assert(symbol_ok(bytes@, first + i, chains));
        proof {
            if chains {
                lemma_chain_walked_keys(bytes@, off, ri, relocs@, oi, offsets@);
                let st = symbol_data_off(bytes@, symbol_entry(bytes@, first + i));
                assert(off == st);
                assert forall|k: u32|
                    #[trigger] offsets@.contains_key(k) <==> (o0.contains_key(k) || linked_from(
                        bytes@,
                        first as int,
                        i + 1,
                        k,
                    )) by {
                    if linked_from(bytes@, first as int, i + 1, k) {
                        let j = choose|j: int|
                            0 <= j < i + 1 && #[trigger] chain_link(bytes@, symbol_data_off(bytes@, symbol_entry(bytes@, first + j)), k);
                        if j < i {
                            assert(linked_from(bytes@, first as int, i as int, k));
                        }
                    }
                    if linked_from(bytes@, first as int, i as int, k) {
                        let j = choose|j: int|
                            0 <= j < i && #[trigger] chain_link(bytes@, symbol_data_off(bytes@, symbol_entry(bytes@, first + j)), k);
                        assert(0 <= j < i + 1);
                    }
                    if chain_link(bytes@, st, k) {
                        assert(chain_link(bytes@, symbol_data_off(bytes@, symbol_entry(bytes@, first + i)), k));
                    }
                }
            }
        }
        i = i + 1;
    }
    Ok((offs, names))
}

/// `e` is the first element of `cuts` after `k`.
pub open spec fn next_in(cuts: Set<u32>, k: u32, e: u32) -> bool {
    &&& cuts.contains(e)
    &&& k < e
    &&& forall|k2: u32| #[trigger] cuts.contains(k2) && k < k2 ==> e <= k2
}

/// `s` was cut from `b` at `k`, up to the next start `e` or the end of
/// `b`, with the pointers of `relocs` in that span wired in.
pub open spec fn slot_cut(
    s: HsdStruct,
    b: Seq<u8>,
    k: u32,
    e: u32,
    relocs: Map<u32, u32>,
    ots: Map<u32, StructRef>,
) -> bool {
    &&& struct_at(s, b, k)
    &&& s.bytes().len() == (if e < b.len() {
        e as int
    } else {
        b.len() as int
    }) - k
    &&& s.refs() == wired(relocs, ots, k, e, s.bytes().len() as int)
}

/// The structs of `d` are `b` cut at `cuts`, each keyed by its start in
/// `ots`, with the pointers of `relocs` wired in; root `i` is the struct at
/// `root_offs[i]`.
pub open spec fn graph_of(
    d: &Dat,
    b: Seq<u8>,
    cuts: Set<u32>,
    relocs: Map<u32, u32>,
    root_offs: Seq<u32>,
    ots: Map<u32, StructRef>,
) -> bool {
    &&& forall|k: u32|
        #[trigger] ots.contains_key(k) <==> (cuts.contains(k) && k < b.len() && exists|e: u32|
            #[trigger] next_in(cuts, k, e))
    &&& forall|k: u32, e: u32|
        #[trigger] ots.contains_key(k) && #[trigger] next_in(cuts, k, e) ==> ots[k] < d.pool.len() && slot_cut(
            d.pool.at(ots[k] as int),
            b,
            k,
            e,
            relocs,
            ots,
        )
    &&& forall|i: int| 0 <= i < d.roots@.len() ==> #[trigger] root_keyed(d.roots@, root_offs, ots, i)
}

/// Root `i` is the struct `ots` keys at `root_offs[i]`.
pub open spec fn root_keyed(roots: Seq<RootNode>, root_offs: Seq<u32>, ots: Map<u32, StructRef>, i: int) -> bool {
    ots.contains_key(root_offs[i]) && roots[i].data == ots[root_offs[i]]
}

/// The structs of `d` are `b` cut at `cuts` with the pointers of `relocs`
/// wired in, root `i` at `root_offs[i]`.
pub open spec fn graph_cut(d: &Dat, b: Seq<u8>, cuts: Set<u32>, relocs: Map<u32, u32>, root_offs: Seq<u32>) -> bool {
    exists|ots: Map<u32, StructRef>| #[trigger] graph_of(d, b, cuts, relocs, root_offs, ots)
}

/// The struct starts of a build: those found, then the symbol offsets.
pub open spec fn cut_set(offsets: Map<u32, bool>, root_offs: Seq<u32>, ref_offs: Seq<u32>) -> Set<u32> {
    Set::new(|k: u32| offsets.contains_key(k) || root_offs.contains(k) || ref_offs.contains(k))
}

/// `d` is the graph built from `b` with the symbols at `root_offs` and
/// `ref_offs` named `root_names` and `ref_names`.
pub open spec fn built(
    d: &Dat,
    b: Seq<u8>,
    version: [u8; 4],
    root_offs: Seq<u32>,
    root_names: Seq<String>,
    ref_offs: Seq<u32>,
    ref_names: Seq<String>,
) -> bool {
    &&& d.wf()
    &&& d.version == version
    &&& d.roots@.len() == root_offs.len()
    &&& d.references@.len() == ref_offs.len()
    &&& forall|i: int|
        #![trigger d.roots@[i]]
        0 <= i < d.roots@.len() ==> d.roots@[i].name@ == root_names[i]@ && struct_at(
            d.pool.at(d.roots@[i].data as int),
            b,
            root_offs[i],
        )
    &&& forall|i: int|
        #![trigger d.references@[i]]
        0 <= i < d.references@.len() ==> d.references@[i].name@ == ref_names[i]@ && struct_at(
            d.pool.at(d.references@[i].data as int),
            b,
            ref_offs[i],
        )
    &&& forall|q: int|
        0 <= q < d.pool.len() ==> parsed_flags(#[trigger] d.pool.at(q)) && from_file(d.pool.at(q), b)
    &&& slots_fit(&d.pool)
    &&& d.struct_order@.no_duplicates()
    &&& closed_under_refs(&d.pool, d.struct_order@)
    &&& forall|j: int|
        0 <= j < d.symbol_refs().len() ==> d.struct_order@.contains(#[trigger] d.symbol_refs()[j])
    &&& forall|j: int| 0 <= j < d.struct_order@.len() ==> reached(&d.pool, d.symbol_refs().to_set(), #[trigger] d.struct_order@[j])
}

proof fn lemma_graph_of(
    d: &Dat,
    b: Seq<u8>,
    cuts: Set<u32>,
    offs: Map<u32, bool>,
    relocs: Map<u32, u32>,
    root_offs: Seq<u32>,
    ots: Map<u32, StructRef>,
    spans: Seq<(u32, u32)>,
    p_carved: StructPool,
    p_wired: StructPool,
    roots: Seq<RootNode>,
)
    requires
        forall|k: u32| #[trigger] offs.contains_key(k) <==> cuts.contains(k),
        forall|k: u32|
            #[trigger] ots.contains_key(k) <==> (offs.contains_key(k) && k < b.len() && has_next_cut(offs, k)),
        forall|k: u32| #[trigger] ots.contains_key(k) ==> ots[k] < p_carved.len() && spans[ots[k] as int].0 == k,
        spans.len() == p_carved.len(),
        forall|q: int| 0 <= q < p_carved.len() ==> #[trigger] carved_slot(&p_carved, spans, b, q),
        forall|q: int| 0 <= q < p_carved.len() ==> #[trigger] slot_span(&p_carved, spans, ots, offs, b.len() as int, q),
        p_wired.len() == p_carved.len(),
        forall|x: int|
            0 <= x < p_carved.len() ==> #[trigger] p_wired.at(x).refs() == wired(
                relocs,
                ots,
                spans[x].0,
                spans[x].1,
                p_carved.at(x).bytes().len() as int,
            ),
        d.pool.len() == p_wired.len(),
        forall|q: int|
            0 <= q < d.pool.len() ==> d.pool.at(q).bytes() == p_carved.at(q).bytes() && #[trigger] d.pool.at(q).refs()
                == p_wired.at(q).refs(),
        d.roots@ == roots,
        roots.len() == root_offs.len(),
        forall|i: int| 0 <= i < roots.len() ==> #[trigger] root_keyed(roots, root_offs, ots, i),
    ensures
        graph_cut(d, b, cuts, relocs, root_offs),
{
    assert forall|k: u32|
        #[trigger] ots.contains_key(k) <==> (cuts.contains(k) && k < b.len() && exists|e: u32| #[trigger] next_in(cuts, k, e)) by {
        if offs.contains_key(k) && has_next_cut(offs, k) {
            let e = choose|e: u32| #[trigger] next_cut(offs, k, e);
            assert forall|k2: u32| #[trigger] cuts.contains(k2) && k < k2 implies e <= k2 by {
                assert(offs.contains_key(k2));
            }
            assert(next_in(cuts, k, e));
        }
        if cuts.contains(k) && (exists|e: u32| #[trigger] next_in(cuts, k, e)) {
            let e = choose|e: u32| #[trigger] next_in(cuts, k, e);
            assert forall|k2: u32| #[trigger] offs.contains_key(k2) && k < k2 implies e <= k2 by {
                assert(cuts.contains(k2));
            }
            assert(next_cut(offs, k, e));
        }
    }
    assert forall|k: u32, e: u32| #[trigger] ots.contains_key(k) && #[trigger] next_in(cuts, k, e) implies ots[k] < d.pool.len() && slot_cut(
        d.pool.at(ots[k] as int),
        b,
        k,
        e,
        relocs,
        ots,
    ) by {
        let q = ots[k] as int;
        assert(slot_span(&p_carved, spans, ots, offs, b.len() as int, q));
        assert(carved_slot(&p_carved, spans, b, q));
        let e2 = spans[q].1;
        assert(next_cut(offs, k, e2));
        assert(cuts.contains(e2));
        assert(e <= e2);
        assert(offs.contains_key(e));
        assert(e2 <= e);
        assert(d.pool.at(q).refs() == p_wired.at(q).refs());
    }
    assert forall|i: int| 0 <= i < d.roots@.len() implies #[trigger] root_keyed(d.roots@, root_offs, ots, i) by {
        assert(root_keyed(roots, root_offs, ots, i));
    }
    assert(graph_of(d, b, cuts, relocs, root_offs, ots));
}

/// A struct is cut at `k`: `k` lies in the file and a later start of `cuts`
/// ends it.
pub open spec fn symbol_carved(cuts: Set<u32>, blen: int, k: u32) -> bool {
    &&& k < blen
    &&& exists|e: u32| #[trigger] next_in(cuts, k, e)
}

proof fn lemma_next_cut_in(offs: Map<u32, bool>, cuts: Set<u32>, k: u32)
    requires
        forall|x: u32| #[trigger] offs.contains_key(x) <==> cuts.contains(x),
    ensures
        has_next_cut(offs, k) <==> exists|e: u32| #[trigger] next_in(cuts, k, e),
{
    if has_next_cut(offs, k) {
        let e = choose|e: u32| #[trigger] next_cut(offs, k, e);
        assert forall|k2: u32| #[trigger] cuts.contains(k2) && k < k2 implies e <= k2 by {
            assert(offs.contains_key(k2));
        }
        assert(next_in(cuts, k, e));
    }
    if exists|e: u32| #[trigger] next_in(cuts, k, e) {
        let e = choose|e: u32| #[trigger] next_in(cuts, k, e);
        assert forall|k2: u32| #[trigger] offs.contains_key(k2) && k < k2 implies e <= k2 by {
            assert(cuts.contains(k2));
        }
        assert(next_cut(offs, k, e));
    }
}

/// Symbols whose data offsets in `offs` are equal share their struct.
pub open spec fn shares_by_offset(d: &Dat, offs: Seq<u32>) -> bool {
    forall|i: int, j: int|
        0 <= i < offs.len() && 0 <= j < offs.len() && #[trigger] offs[i] == #[trigger] offs[j] ==> d.symbol_refs()[i]
            == d.symbol_refs()[j]
}

/// Build the struct graph from the struct starts and pointers found, and
/// resolve the symbols.
fn build(
    bytes: &[u8],
    version: [u8; 4],
    offsets: OffsetMap<bool>,
    relocs: &OffsetMap<u32>,
    root_offs: &Vec<u32>,
    root_names: Vec<String>,
    ref_offs: &Vec<u32>,
    ref_names: Vec<String>,
) -> (r: Result<Dat>)
    requires
        offsets.wf(),
        relocs.wf(),
        root_offs@.len() == root_names@.len(),
        ref_offs@.len() == ref_names@.len(),
    ensures
        r matches Ok(d) ==> built(
            &d,
            bytes@,
            version,
            root_offs@,
            root_names@,
            ref_offs@,
            ref_names@,
        ),
        r matches Ok(d) ==> graph_cut(&d, bytes@, cut_set(offsets@, root_offs@, ref_offs@), relocs@, root_offs@),
        r matches Ok(d) ==> shares_by_offset(&d, root_offs@ + ref_offs@),
        r is Ok <==> (forall|i: int|
            0 <= i < root_offs@.len() ==> #[trigger] symbol_carved(
                cut_set(offsets@, root_offs@, ref_offs@),
                bytes@.len() as int,
                root_offs@[i],
            )) && (forall|i: int|
            0 <= i < ref_offs@.len() ==> #[trigger] symbol_carved(
                cut_set(offsets@, root_offs@, ref_offs@),
                bytes@.len() as int,
                ref_offs@[i],
            )),
{
    let ghost o_in = offsets@;
    let mut offsets = offsets;
    let mut j: usize = 0;
    while j < root_offs.len()
        invariant
            offsets.wf(),
            j <= root_offs@.len(),
            forall|k: u32| #[trigger] offsets@.contains_key(k) <==> (o_in.contains_key(k) || root_offs@.subrange(0, j as int).contains(k)),
        decreases root_offs@.len() - j,
    {
        proof {
            assert forall|k: u32| #[trigger] root_offs@.subrange(0, j + 1).contains(k) <==> (root_offs@.subrange(0, j as int).contains(k) || k == root_offs@[j as int]) by {
                if root_offs@.subrange(0, j + 1).contains(k) {
                    let x = choose|x: int| 0 <= x < j + 1 && #[trigger] root_offs@.subrange(0, j + 1)[x] == k;
                    if x < j {
                        assert(root_offs@.subrange(0, j as int)[x] == k);
                    }
                }
                if root_offs@.subrange(0, j as int).contains(k) {
                    let x = choose|x: int| 0 <= x < j && #[trigger] root_offs@.subrange(0, j as int)[x] == k;
                    assert(root_offs@.subrange(0, j + 1)[x] == k);
                }
                if k == root_offs@[j as int] {
                    assert(root_offs@.subrange(0, j + 1)[j as int] == k);
                }
            }
        }
        offsets.insert(root_offs[j], true);
        j = j + 1;
    }
    proof {
        assert(root_offs@.subrange(0, root_offs@.len() as int) =~= root_offs@);
    }
    let mut j: usize = 0;
    while j < ref_offs.len()
        invariant
            offsets.wf(),
            j <= ref_offs@.len(),
            forall|k: u32| #[trigger] offsets@.contains_key(k) <==> (o_in.contains_key(k) || root_offs@.contains(k) || ref_offs@.subrange(0, j as int).contains(k)),
        decreases ref_offs@.len() - j,
    {
        proof {
            assert forall|k: u32| #[trigger] ref_offs@.subrange(0, j + 1).contains(k) <==> (ref_offs@.subrange(0, j as int).contains(k) || k == ref_offs@[j as int]) by {
                if ref_offs@.subrange(0, j + 1).contains(k) {
                    let x = choose|x: int| 0 <= x < j + 1 && #[trigger] ref_offs@.subrange(0, j + 1)[x] == k;
                    if x < j {
                        assert(ref_offs@.subrange(0, j as int)[x] == k);
                    }
                }
                if ref_offs@.subrange(0, j as int).contains(k) {
                    let x = choose|x: int| 0 <= x < j && #[trigger] ref_offs@.subrange(0, j as int)[x] == k;
                    assert(ref_offs@.subrange(0, j + 1)[x] == k);
                }
                if k == ref_offs@[j as int] {
                    assert(ref_offs@.subrange(0, j + 1)[j as int] == k);
                }
            }
        }
        offsets.insert(ref_offs[j], true);
        j = j + 1;
    }
    let ghost cuts = cut_set(o_in, root_offs@, ref_offs@);
    proof {
        assert(ref_offs@.subrange(0, ref_offs@.len() as int) =~= ref_offs@);
        assert forall|k: u32| #[trigger] offsets@.contains_key(k) <==> cuts.contains(k) by {}
    }

    let mut pool = StructPool::new();
    let (spans, ots) = carve(bytes, &offsets, &mut pool);
    let ghost p_carved = pool;
    proof {
        assert forall|q: int, k: u32|
            0 <= q < pool.len() && #[trigger] pool.at(q).refs().contains_key(k) implies k + 4
            <= pool.at(q).bytes().len() by {
            assert(carved_slot(&pool, spans@, bytes@, q));
        }
        assert forall|x: int| 0 <= x < pool.len() implies #[trigger] pool.at(x).refs() == Map::<u32, StructRef>::empty() by {
            assert(carved_slot(&pool, spans@, bytes@, x));
        }
    }
    wire(&spans, relocs, &ots, &mut pool);
    proof {
        assert forall|k: u32| cuts.contains(k) implies (#[trigger] ots@.contains_key(k) <==> symbol_carved(
            cuts,
            bytes@.len() as int,
            k,
        )) by {
            lemma_next_cut_in(offsets@, cuts, k);
        }
        assert forall|i: int| 0 <= i < root_offs@.len() implies cuts.contains(#[trigger] root_offs@[i]) by {
            assert(root_offs@.contains(root_offs@[i]));
        }
        assert forall|i: int| 0 <= i < ref_offs@.len() implies cuts.contains(#[trigger] ref_offs@[i]) by {
            assert(ref_offs@.contains(ref_offs@[i]));
        }
    }
    let roots = match resolve(root_offs, root_names, &ots, "root struct offset missing") {
        Ok(v) => v,
        Err(e) => {
            proof {
                let i = choose|i: int| 0 <= i < root_offs@.len() && !ots@.contains_key(#[trigger] root_offs@[i]);
                assert(!symbol_carved(cuts, bytes@.len() as int, root_offs@[i]));
            }
            return Err(e);
        },
    };
    let references = match resolve(ref_offs, ref_names, &ots, "ref struct offset missing") {
        Ok(v) => v,
        Err(e) => {
            proof {
                let i = choose|i: int| 0 <= i < ref_offs@.len() && !ots@.contains_key(#[trigger] ref_offs@[i]);
                assert(!symbol_carved(cuts, bytes@.len() as int, ref_offs@[i]));
            }
            return Err(e);
        },
    };
    proof {
        assert forall|i: int| 0 <= i < root_offs@.len() implies #[trigger] symbol_carved(
            cuts,
            bytes@.len() as int,
            root_offs@[i],
        ) by {
            assert(ots@.contains_key(root_offs@[i]));
        }
        assert forall|i: int| 0 <= i < ref_offs@.len() implies #[trigger] symbol_carved(
            cuts,
            bytes@.len() as int,
            ref_offs@[i],
        ) by {
            assert(ots@.contains_key(ref_offs@[i]));
        }
    }
    proof {
        assert forall|q: int| 0 <= q < pool.len() implies #[trigger] pool.at(q).default_flags() by {
            assert(carved_slot(&p_carved, spans@, bytes@, q));
            assert(pool.at(q).bytes() == p_carved.at(q).bytes());
            assert(pool.at(q).same_flags(&p_carved.at(q)));
        }
    }
    let ghost p_wired = pool;
    mark_buffers(&mut pool);
    proof {
        assert(roots@.len() == root_offs@.len());
        assert forall|x: int| 0 <= x < roots@.len() implies #[trigger] roots@[x].data
            < pool.len() by {
            let rr = roots@[x];
            assert(rr.data == ots@[root_offs@[x]]);
            assert(ots@.contains_key(root_offs@[x]));
        }
        assert forall|x: int| 0 <= x < references@.len() implies #[trigger] references@[x].data
            < pool.len() by {
            let rr = references@[x];
            assert(rr.data == ots@[ref_offs@[x]]);
            assert(ots@.contains_key(ref_offs@[x]));
        }
    }
    let starts = symbol_starts(&roots, &references, Ghost(pool.len()));
    let struct_order = reachable_order(&pool, &starts);
    let d = Dat { version, roots, references, struct_order, pool };
    proof {
        let offs = root_offs@ + ref_offs@;
        let nr = root_offs@.len() as int;
        assert forall|i: int| 0 <= i < offs.len() implies ots@.contains_key(offs[i]) && d.symbol_refs()[i]
            == ots@[#[trigger] offs[i]] by {
            if i < nr {
                assert(d.roots@[i].data == ots@[root_offs@[i]]);
            } else {
                assert(d.references@[i - nr].data == ots@[ref_offs@[i - nr]]);
            }
        }
        assert(shares_by_offset(&d, offs));
    }
    proof {

        assert forall|q: int| 0 <= q < d.pool.len() implies d.pool.at(q).bytes() == p_carved.at(
            q,
        ).bytes() && parsed_flags(#[trigger] d.pool.at(q)) && d.pool.at(q).refs() == p_wired.at(
            q,
        ).refs() by {
            assert(marked_slot(&d.pool, &p_wired, q, p_wired.len() as int));
            assert(p_wired.at(q).bytes() == p_carved.at(q).bytes());
        }
        assert forall|q: int| 0 <= q < d.pool.len() implies parsed_flags(#[trigger] d.pool.at(q))
            && from_file(d.pool.at(q), bytes@) by {
            assert(carved_slot(&p_carved, spans@, bytes@, q));
            assert(marked_slot(&d.pool, &p_wired, q, p_wired.len() as int));
            assert(struct_at(d.pool.at(q), bytes@, spans@[q].0));
        }
        assert forall|q: int, k: u32|
            0 <= q < d.pool.len() && #[trigger] d.pool.at(q).refs().contains_key(k) implies k + 4
            <= d.pool.at(q).bytes().len() by {
            assert(marked_slot(&d.pool, &p_wired, q, p_wired.len() as int));
            assert(p_wired.at(q).refs().contains_key(k));
        }
        assert forall|i: int| 0 <= i < d.roots@.len() implies struct_at(
            d.pool.at((#[trigger] d.roots@[i]).data as int),
            bytes@,
            root_offs@[i],
        ) by {
            let rr = d.roots@[i];
            assert(rr == roots@[i]);
            assert(rr.data == ots@[root_offs@[i]]);
            assert(ots@.contains_key(root_offs@[i]));
            let t = ots@[root_offs@[i]] as int;
            assert(d.pool.at(t).bytes() == p_carved.at(t).bytes());
        }
        assert forall|i: int| 0 <= i < d.references@.len() implies struct_at(
            d.pool.at((#[trigger] d.references@[i]).data as int),
            bytes@,
            ref_offs@[i],
        ) by {
            let rr = d.references@[i];
            assert(rr == references@[i]);
            assert(rr.data == ots@[ref_offs@[i]]);
            assert(ots@.contains_key(ref_offs@[i]));
            let t = ots@[ref_offs@[i]] as int;
            assert(d.pool.at(t).bytes() == p_carved.at(t).bytes());
        }
        assert(d.symbol_refs() == starts@);
        assert(d.wf());
        assert(forall|i: int|
            #![trigger d.roots@[i]]
            0 <= i < d.roots@.len() ==> d.roots@[i].name@ == root_names@[i]@);
        assert(slots_fit(&d.pool));
        assert(d.struct_order@.no_duplicates());
        assert(closed_under_refs(&d.pool, d.struct_order@));
        assert(forall|j: int|
            0 <= j < d.symbol_refs().len() ==> d.struct_order@.contains(
                #[trigger] d.symbol_refs()[j],
            ));
        assert(d.version == version);
        assert(forall|i: int|
            #![trigger d.roots@[i]]
            0 <= i < d.roots@.len() ==> d.roots@[i].name@ == root_names@[i]@ && struct_at(
                d.pool.at(d.roots@[i].data as int),
                bytes@,
                root_offs@[i],
            ));
        assert forall|i: int| 0 <= i < roots@.len() implies #[trigger] root_keyed(roots@, root_offs@, ots@, i) by {
            let rr = roots@[i];
            assert(rr.data == ots@[root_offs@[i]]);
            assert(ots@.contains_key(root_offs@[i]));
        }
        lemma_graph_of(&d, bytes@, cuts, offsets@, relocs@, root_offs@, ots@, spans@, p_carved, p_wired, roots@);
    }
    Ok(d)
}

/// The identities of the roots, then of the references.
pub(crate) fn symbol_starts(roots: &Vec<RootNode>, references: &Vec<RootNode>, Ghost(n): Ghost<nat>) -> (starts: Vec<
    StructRef,
>)
    requires
        forall|x: int| 0 <= x < roots@.len() ==> #[trigger] roots@[x].data < n,
        forall|x: int| 0 <= x < references@.len() ==> #[trigger] references@[x].data < n,
    ensures
        starts@ == roots@.map_values(|r: RootNode| r.data) + references@.map_values(
            |r: RootNode| r.data,
        ),
        forall|i: int| 0 <= i < starts@.len() ==> #[trigger] starts@[i] < n,
{
    let mut starts: Vec<StructRef> = Vec::new();
    let mut j: usize = 0;
    while j < roots.len()
        invariant
            j <= roots@.len(),
            starts@ == roots@.take(j as int).map_values(|r: RootNode| r.data),
        decreases roots@.len() - j,
    {
        starts.push(roots[j].data);
        proof {
            assert(roots@.take(j + 1).map_values(|r: RootNode| r.data) =~= roots@.take(
                j as int,
            ).map_values(|r: RootNode| r.data).push(roots@[j as int].data));
        }
        j = j + 1;
    }
    proof {
        assert(roots@.take(roots@.len() as int) =~= roots@);
        assert(references@.take(0).map_values(|r: RootNode| r.data) =~= Seq::<StructRef>::empty());
        assert(starts@ =~= roots@.map_values(|r: RootNode| r.data) + references@.take(0).map_values(
            |r: RootNode| r.data,
        ));
    }
    let mut j: usize = 0;
    while j < references.len()
        invariant
            j <= references@.len(),
            starts@ == roots@.map_values(|r: RootNode| r.data) + references@.take(
                j as int,
            ).map_values(|r: RootNode| r.data),
        decreases references@.len() - j,
    {
        starts.push(references[j].data);
        proof {
            assert(references@.take(j + 1).map_values(|r: RootNode| r.data) =~= references@.take(
                j as int,
            ).map_values(|r: RootNode| r.data).push(references@[j as int].data));
            assert(roots@.map_values(|r: RootNode| r.data) + references@.take(j + 1).map_values(
                |r: RootNode| r.data,
            ) =~= (roots@.map_values(|r: RootNode| r.data) + references@.take(j as int).map_values(
                |r: RootNode| r.data,
            )).push(references@[j as int].data));
        }
        j = j + 1;
    }
    proof {
        assert(references@.take(references@.len() as int) =~= references@);
        assert forall|i: int| 0 <= i < starts@.len() implies #[trigger] starts@[i] < n by {
            if i < roots@.len() {
                assert(starts@[i] == roots@[i].data);
            } else {
                assert(starts@[i] == references@[i - roots@.len()].data);
            }
        }
    }
    starts
}

/// With no reference symbols, the starts and pointers `parse` hands to
/// `build` are those of `file_cuts` and `file_relocs`.
proof fn lemma_parse_graph(
    b: Seq<u8>,
    ro: u32,
    off0: Map<u32, bool>,
    rel0: Map<u32, u32>,
    off1: Map<u32, bool>,
    rel1: Map<u32, u32>,
    off2: Map<u32, bool>,
    rel2: Map<u32, u32>,
    root_offs: Seq<u32>,
    ref_offs: Seq<u32>,
)
    requires
        b.len() >= HEADER_SIZE,
        ro as int == reloc_table_pos(b),
        off0 == Map::<u32, bool>::empty().insert(ro, true),
        rel0 == Map::<u32, u32>::empty(),
        forall|pos: u32|
            #[trigger] rel1.contains_key(pos) <==> (rel0.contains_key(pos) || relocated(b, ro, hdr(b, 2) as int, pos)),
        forall|pos: u32|
            #[trigger] rel1.contains_key(pos) ==> rel1[pos] == (if relocated(b, ro, hdr(b, 2) as int, pos) {
                ptr_target(b, pos)
            } else {
                rel0[pos]
            }),
        forall|k: u32|
            #[trigger] off1.contains_key(k) <==> (off0.contains_key(k) || targeted(b, ro, hdr(b, 2) as int, k) || (k
                == hdr(b, 0) && past_table(b, ro, hdr(b, 2) as int))),
        off2 == off1,
        rel2 == rel1,
        hdr(b, 4) == 0,
        ref_offs.len() == 0,
        root_offs.len() == hdr(b, 3),
        forall|j: int| 0 <= j < hdr(b, 3) ==> #[trigger] root_offs[j] == symbol_data_off(b, symbol_entry(b, j)),
    ensures
        cut_set(off2, root_offs, ref_offs) == file_cuts(b),
        rel2 == file_relocs(b),
        root_offs == file_root_offs(b),
{
    assert(root_offs =~= file_root_offs(b));
    assert(cut_set(off2, root_offs, ref_offs) =~= file_cuts(b)) by {
        assert forall|k: u32| cut_set(off2, root_offs, ref_offs).contains(k) <==> file_cuts(b).contains(k) by {
            if ref_offs.contains(k) {
                let x = choose|x: int| 0 <= x < ref_offs.len() && ref_offs[x] == k;
            }
        }
    }
    assert(rel2 =~= file_relocs(b));
}

/// The data offsets of the references.
pub open spec fn file_ref_offs(b: Seq<u8>) -> Seq<u32> {
    Seq::new(hdr(b, 4) as nat, |j: int| symbol_data_off(b, symbol_entry(b, hdr(b, 3) + j)))
}

/// Every struct start of `b`: the relocation table, each live pointer's
/// target, the file size where a pointer runs past the table, each link of a
/// reference chain, and each symbol's data.
pub open spec fn all_cuts(b: Seq<u8>) -> Set<u32> {
    let ro = reloc_table_pos(b) as u32;
    let n = hdr(b, 2) as int;
    Set::new(
        |k: u32|
            k == ro || targeted(b, ro, n, k) || (k == hdr(b, 0) && past_table(b, ro, n)) || linked_from(
                b,
                hdr(b, 3) as int,
                hdr(b, 4) as int,
                k,
            ) || file_root_offs(b).contains(k) || file_ref_offs(b).contains(k),
    )
}

/// `b` parses: its header, relocation entries and symbol entries lie in it,
/// every name is valid UTF-8, every reference chain ends, and a struct is
/// cut at every symbol's data.
pub open spec fn parse_ok(b: Seq<u8>) -> bool {
    &&& b.len() >= HEADER_SIZE
    &&& reloc_table_pos(b) <= u32::MAX
    &&& forall|i: int|
        0 <= i < hdr(b, 2) ==> #[trigger] w32(reloc_table_pos(b) + 4 * i) + 4 <= b.len()
    &&& forall|j: int| 0 <= j < hdr(b, 3) ==> #[trigger] symbol_ok(b, j, false)
    &&& forall|j: int| 0 <= j < hdr(b, 4) ==> #[trigger] symbol_ok(b, hdr(b, 3) + j, true)
    &&& forall|i: int|
        0 <= i < hdr(b, 3) ==> #[trigger] symbol_carved(all_cuts(b), b.len() as int, file_root_offs(b)[i])
    &&& forall|i: int|
        0 <= i < hdr(b, 4) ==> #[trigger] symbol_carved(all_cuts(b), b.len() as int, file_ref_offs(b)[i])
}

impl Dat {
    /// Parse a `.dat` image.  Roots and references are resolved through the
    /// symbol table; the data section is cut into structs at every pointer
    /// target and symbol offset, and pointers become references.
    #[verifier::rlimit(80)]
    #[verifier::spinoff_prover]
    pub fn parse(bytes: &[u8]) -> (r: Result<Dat>)
        ensures
            bytes@.len() < HEADER_SIZE ==> (r matches Err(HsdError::Malformed { offset, .. })
                && offset == 0),
            bytes@.len() >= HEADER_SIZE && reloc_table_pos(bytes@) > u32::MAX ==> (r matches Err(
                HsdError::Malformed { offset, .. },
            ) && offset == 4),
            r matches Ok(d) ==> parsed_from(&d, bytes@),
            r is Ok <==> parse_ok(bytes@),
    {
        if bytes.len() < 0x20 {
            return Err(HsdError::malformed(0, "file shorter than header"));
        }
        let fsize = read_u32_at(bytes, 0);
        let reloc_rel = read_u32_at(bytes, 4);
        let reloc_count = read_u32_at(bytes, 8);
        let root_count = read_u32_at(bytes, 12);
        let ref_count = read_u32_at(bytes, 16);
        let reloc_offset = match reloc_rel.checked_add(HEADER_SIZE) {
            Some(v) => v,
            None => {
                return Err(HsdError::malformed(4, "reloc_offset overflow"));
            },
        };
        let version: [u8; 4] = [bytes[0x14], bytes[0x15], bytes[0x16], bytes[0x17]];
        proof {
            assert(version@ =~= bytes@.subrange(0x14, 0x18));
        }
        let mut offsets: OffsetMap<bool> = OffsetMap::new();
        let mut relocs: OffsetMap<u32> = OffsetMap::new();
        offsets.insert(reloc_offset, true);
        let ghost off0 = offsets@;
        let ghost rel0 = relocs@;
        let ghost b = bytes@;
        assert(reloc_offset as int == reloc_table_pos(b));
        match read_relocations(bytes, fsize, reloc_offset, reloc_count, &mut offsets, &mut relocs) {
            Ok(()) => {},
            Err(e) => {
                proof {
                    let i = choose|i: int| 0 <= i < reloc_count && !(#[trigger] w32(reloc_offset + 4 * i) + 4 <= b.len());
                    assert(!(w32(reloc_table_pos(b) + 4 * i) + 4 <= b.len()));
                }
                return Err(e);
            },
        }
        let ghost off1 = offsets@;
        let ghost rel1 = relocs@;
        let (root_offs, root_names) = match read_symbols(bytes, 0, root_count, false, &mut offsets, &mut relocs) {
            Ok(v) => v,
            Err(e) => {
                proof {
                    let j = choose|j: int| 0 <= j < root_count && !#[trigger] symbol_ok(b, 0 + j, false);
                    assert(0 + j == j);
                    assert(!symbol_ok(b, j, false));
                }
                return Err(e);
            },
        };
        let (ref_offs, ref_names) = match read_symbols(bytes, root_count, ref_count, true, &mut offsets, &mut relocs) {
            Ok(v) => v,
            Err(e) => {
                proof {
                    let j = choose|j: int| 0 <= j < ref_count && !#[trigger] symbol_ok(b, root_count + j, true);
                    assert(!symbol_ok(b, hdr(b, 3) + j, true));
                }
                return Err(e);
            },
        };
        proof {
            assert forall|j: int| 0 <= j < hdr(b, 3) implies #[trigger] symbol_ok(b, j, false) by {
                assert(symbol_ok(b, 0 + j, false));
            }
            assert forall|j: int| 0 <= j < hdr(b, 4) implies #[trigger] symbol_ok(b, hdr(b, 3) + j, true) by {
                assert(symbol_ok(b, root_count + j, true));
            }
        }
        let ghost rn = root_names@;
        let ghost fn_ = ref_names@;
        let ghost off2 = offsets@;
        proof {
            assert(root_offs@ =~= file_root_offs(bytes@)) by {
                assert forall|j: int| 0 <= j < root_offs@.len() implies root_offs@[j] == file_root_offs(bytes@)[j] by {
                    assert(symbol_read(bytes@, 0 + j, root_offs@[j], rn[j]@));
                    assert(0 + j == j);
                }
            }
            assert(ref_offs@ =~= file_ref_offs(bytes@)) by {
                assert forall|j: int| 0 <= j < ref_offs@.len() implies ref_offs@[j] == file_ref_offs(bytes@)[j] by {
                    assert(symbol_read(bytes@, root_count + j, ref_offs@[j], fn_[j]@));
                }
            }
            assert(cut_set(off2, root_offs@, ref_offs@) =~= all_cuts(bytes@)) by {
                assert forall|k: u32| cut_set(off2, root_offs@, ref_offs@).contains(k) <==> all_cuts(bytes@).contains(k) by {
                    assert(off2.contains_key(k) <==> (off1.contains_key(k) || linked_from(bytes@, root_count as int, ref_count as int, k)));
                }
            }
            assert(cut_set(off2, root_offs@, ref_offs@) == all_cuts(b));
        }
        let d = match build(bytes, version, offsets, &relocs, &root_offs, root_names, &ref_offs, ref_names) {
            Ok(d) => d,
            Err(e) => {
                proof {
                    if forall|i: int| 0 <= i < root_offs@.len() ==> #[trigger] symbol_carved(
                        cut_set(off2, root_offs@, ref_offs@),
                        b.len() as int,
                        root_offs@[i],
                    ) {
                        let i = choose|i: int| 0 <= i < ref_offs@.len() && !#[trigger] symbol_carved(
                            cut_set(off2, root_offs@, ref_offs@),
                            b.len() as int,
                            ref_offs@[i],
                        );
                        assert(!symbol_carved(all_cuts(b), b.len() as int, file_ref_offs(b)[i]));
                    } else {
                        let i = choose|i: int| 0 <= i < root_offs@.len() && !#[trigger] symbol_carved(
                            cut_set(off2, root_offs@, ref_offs@),
                            b.len() as int,
                            root_offs@[i],
                        );
                        assert(!symbol_carved(all_cuts(b), b.len() as int, file_root_offs(b)[i]));
                    }
                }
                return Err(e);
            },
        };
        proof {
            assert forall|i: int| 0 <= i < hdr(b, 3) implies #[trigger] symbol_carved(all_cuts(b), b.len() as int, file_root_offs(b)[i]) by {
                assert(symbol_carved(cut_set(off2, root_offs@, ref_offs@), b.len() as int, root_offs@[i]));
            }
            assert forall|i: int| 0 <= i < hdr(b, 4) implies #[trigger] symbol_carved(all_cuts(b), b.len() as int, file_ref_offs(b)[i]) by {
                assert(symbol_carved(cut_set(off2, root_offs@, ref_offs@), b.len() as int, ref_offs@[i]));
            }
            assert(parse_ok(b));
        }
        proof {
            if hdr(bytes@, 4) == 0 {
                lemma_parse_graph(bytes@, reloc_offset, off0, rel0, off1, rel1, off2, relocs@, root_offs@, ref_offs@);
                assert(cut_set(off2, root_offs@, ref_offs@) == file_cuts(bytes@));
                assert(relocs@ == file_relocs(bytes@));
                assert(root_offs@ == file_root_offs(bytes@));
            }
            assert forall|i: int| 0 <= i < d.roots@.len() implies symbol_matches(
                bytes@,
                &d.pool,
                i,
                #[trigger] d.roots@[i],
            ) by {
                assert(symbol_read(bytes@, 0 + i, root_offs@[i], rn[i]@));
                assert(0 + i == i);
            }
            assert forall|i: int| 0 <= i < d.references@.len() implies symbol_matches(
                bytes@,
                &d.pool,
                hdr(bytes@, 3) + i,
                #[trigger] d.references@[i],
            ) by {
                assert(symbol_read(bytes@, root_count + i, ref_offs@[i], fn_[i]@));
            }
        }
        Ok(d)
    }
}

impl Dat {
    /// The first root named `name`.
    pub fn root(&self, name: &str) -> (r: Option<&RootNode>)
        ensures
            r is None ==> forall|i: int| 0 <= i < self.roots@.len() ==> #[trigger] self.roots@[i].name@ != name@,
            r matches Some(n) ==> exists|i: int|
                0 <= i < self.roots@.len() && *n == #[trigger] self.roots@[i] && n.name@ == name@
                    && forall|j: int| 0 <= j < i ==> #[trigger] self.roots@[j].name@ != name@,
    {
        let mut i: usize = 0;
        while i < self.roots.len()
            invariant
                i <= self.roots@.len(),
                forall|j: int| 0 <= j < i ==> #[trigger] self.roots@[j].name@ != name@,
            decreases self.roots@.len() - i,
        {
            if str_eq(self.roots[i].name.as_str(), name) {
                return Some(&self.roots[i]);
            }
            i = i + 1;
        }
        None
    }

    /// The `scene_data` root, if any.
    pub fn scene_data(&self) -> (r: Option<&RootNode>)
        ensures
            r is None ==> forall|i: int| 0 <= i < self.roots@.len() ==> #[trigger] self.roots@[i].name@ != "scene_data"@,
            r matches Some(n) ==> exists|i: int|
                0 <= i < self.roots@.len() && *n == #[trigger] self.roots@[i] && n.name@ == "scene_data"@
                    && forall|j: int| 0 <= j < i ==> #[trigger] self.roots@[j].name@ != "scene_data"@,
    {
        self.root("scene_data")
    }
}

} // verus!
