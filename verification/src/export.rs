//! Names and identifiers of the scene-level JSON dump: primitive type,
//! texture color / alpha operation and cull mode names, per-primitive index
//! runs, and the short content hash that names a texture.

use crate::error::hex_char;
use crate::gx::{AlphaMap, ColorMap, GxPrimitiveType, PObjFlag};
use sha1::{Digest, Sha1};
use vstd::prelude::*;

verus! {

/// SHA-1 digest of a byte string.
pub uninterp spec fn sha1_of(data: Seq<u8>) -> Seq<u8>;

/// `sha1::Sha1::digest`: the 20-byte SHA-1 digest of `data`, a function of
/// the bytes alone.
#[verifier::external_body]
fn sha1_digest(data: &[u8]) -> (h: [u8; 20])
    ensures
        h@ == sha1_of(data@),
{
    Sha1::digest(data).into()
}

/// One primitive group of a dumped mesh: its type name and the indices of
/// its vertices in the mesh's flat vertex list.
#[derive(Debug, Clone)]
pub struct PrimitiveDto {
    pub primitive_type: String,
    pub indices: Vec<u32>,
}

/// One texture of a dumped scene.
#[derive(Debug, Clone)]
pub struct TextureDto {
    pub id: String,
    pub file: String,
    pub width: i32,
    pub height: i32,
    pub format: String,
}

/// Two upper-case hexadecimal digits of a byte.
pub open spec fn hex2(b: u8) -> Seq<char> {
    seq![hex_char((b / 16) as int), hex_char((b % 16) as int)]
}

fn push_hex_digit(s: &mut String, d: u8)
    requires
        d < 16,
    ensures
        final(s)@ == old(s)@.push(hex_char(d as int)),
{
    let c: &'static str = match d {
        0 => { proof { reveal_strlit("0"); } "0" },
        1 => { proof { reveal_strlit("1"); } "1" },
        2 => { proof { reveal_strlit("2"); } "2" },
        3 => { proof { reveal_strlit("3"); } "3" },
        4 => { proof { reveal_strlit("4"); } "4" },
        5 => { proof { reveal_strlit("5"); } "5" },
        6 => { proof { reveal_strlit("6"); } "6" },
        7 => { proof { reveal_strlit("7"); } "7" },
        8 => { proof { reveal_strlit("8"); } "8" },
        9 => { proof { reveal_strlit("9"); } "9" },
        10 => { proof { reveal_strlit("A"); } "A" },
        11 => { proof { reveal_strlit("B"); } "B" },
        12 => { proof { reveal_strlit("C"); } "C" },
        13 => { proof { reveal_strlit("D"); } "D" },
        14 => { proof { reveal_strlit("E"); } "E" },
        _ => { proof { reveal_strlit("F"); } "F" },
    };
    s.append(c);
    proof {
        assert(s@ =~= old(s)@.push(hex_char(d as int)));
    }
}

/// Append the two upper-case hexadecimal digits of `b`.
fn push_hex2(s: &mut String, b: u8)
    ensures
        final(s)@ == old(s)@ + hex2(b),
{
    push_hex_digit(s, b / 16);
    push_hex_digit(s, b % 16);
    proof {
        assert(s@ =~= old(s)@ + hex2(b));
    }
}

/// The first `n` bytes of `h` in upper-case hexadecimal.
pub open spec fn hex_prefix(h: Seq<u8>, n: nat) -> Seq<char>
    decreases n,
{
    if n == 0 {
        Seq::empty()
    } else {
        hex_prefix(h, (n - 1) as nat) + hex2(h[n - 1])
    }
}

/// The id of a texture: the first six bytes of the SHA-1 of its data, as
/// twelve upper-case hexadecimal digits.
pub fn sha1_short_id(data: &[u8]) -> (s: String)
    ensures
        s@ == hex_prefix(sha1_of(data@), 6),
        s@.len() == 12,
{
    let hash = sha1_digest(data);
    let mut s = String::new();
    let mut i: usize = 0;
    while i < 6
        invariant
            i <= 6,
            hash@ == sha1_of(data@),
            s@ == hex_prefix(hash@, i as nat),
            s@.len() == 2 * i,
        decreases 6 - i,
    {
        push_hex2(&mut s, hash[i]);
        i = i + 1;
    }
    s
}

/// Decimal digits of `v`.
pub open spec fn dec(v: nat) -> Seq<char>
    decreases v,
{
    if v < 10 {
        seq![hex_char(v as int)]
    } else {
        dec(v / 10) + seq![hex_char((v % 10) as int)]
    }
}

/// Append the decimal digits of `v`.
pub fn push_dec(s: &mut String, v: u32)
    ensures
        final(s)@ == old(s)@ + dec(v as nat),
    decreases v,
{
    if v >= 10 {
        push_dec(s, v / 10);
    }
    push_hex_digit(s, (v % 10) as u8);
    proof {
        assert(s@ =~= old(s)@ + dec(v as nat));
    }
}

/// Name of a primitive type in the dump.
pub open spec fn prim_name(p: GxPrimitiveType) -> Seq<char> {
    match p {
        GxPrimitiveType::Quads => "Quads"@,
        GxPrimitiveType::Triangles => "Triangles"@,
        GxPrimitiveType::TriangleStrip => "TriangleStrip"@,
        GxPrimitiveType::TriangleFan => "TriangleFan"@,
        GxPrimitiveType::Lines => "Lines"@,
        GxPrimitiveType::LineStrip => "LineStrip"@,
        GxPrimitiveType::Points => "Points"@,
        GxPrimitiveType::Unknown(v) => "Unknown_0x"@ + hex2(v),
    }
}

/// The name the dump gives a primitive type (`Unknown_0xNN` for an
/// unrecognized opcode).
pub fn primitive_type_name(p: GxPrimitiveType) -> (s: String)
    ensures
        s@ == prim_name(p),
{
    let mut s = String::new();
    match p {
        GxPrimitiveType::Quads => s.append("Quads"),
        GxPrimitiveType::Triangles => s.append("Triangles"),
        GxPrimitiveType::TriangleStrip => s.append("TriangleStrip"),
        GxPrimitiveType::TriangleFan => s.append("TriangleFan"),
        GxPrimitiveType::Lines => s.append("Lines"),
        GxPrimitiveType::LineStrip => s.append("LineStrip"),
        GxPrimitiveType::Points => s.append("Points"),
        GxPrimitiveType::Unknown(v) => {
            s.append("Unknown_0x");
            push_hex2(&mut s, v);
        },
    }
    proof {
        assert(s@ =~= prim_name(p));
    }
    s
}

/// Name of a texture color operation in the dump.
pub open spec fn color_name(c: ColorMap) -> Seq<char> {
    match c {
        ColorMap::NONE => "NONE"@,
        ColorMap::ALPHA_MASK => "ALPHA_MASK"@,
        ColorMap::RGB_MASK => "RGB_MASK"@,
        ColorMap::BLEND => "BLEND"@,
        ColorMap::MODULATE => "MODULATE"@,
        ColorMap::REPLACE => "REPLACE"@,
        ColorMap::PASS => "PASS"@,
        ColorMap::ADD => "ADD"@,
        ColorMap::SUB => "SUB"@,
        ColorMap::Unknown(v) => "Unknown_"@ + dec(v as nat),
    }
}

/// The name the dump gives a texture color operation (`Unknown_N` for an
/// unrecognized value).
pub fn color_op_name(c: ColorMap) -> (s: String)
    ensures
        s@ == color_name(c),
{
    let mut s = String::new();
    match c {
        ColorMap::NONE => s.append("NONE"),
        ColorMap::ALPHA_MASK => s.append("ALPHA_MASK"),
        ColorMap::RGB_MASK => s.append("RGB_MASK"),
        ColorMap::BLEND => s.append("BLEND"),
        ColorMap::MODULATE => s.append("MODULATE"),
        ColorMap::REPLACE => s.append("REPLACE"),
        ColorMap::PASS => s.append("PASS"),
        ColorMap::ADD => s.append("ADD"),
        ColorMap::SUB => s.append("SUB"),
        ColorMap::Unknown(v) => {
            s.append("Unknown_");
            push_dec(&mut s, v);
        },
    }
    proof {
        assert(s@ =~= color_name(c));
    }
    s
}

/// Name of a texture alpha operation in the dump.
pub open spec fn alpha_name(a: AlphaMap) -> Seq<char> {
    match a {
        AlphaMap::NONE => "NONE"@,
        AlphaMap::ALPHA_MASK => "ALPHA_MASK"@,
        AlphaMap::BLEND => "BLEND"@,
        AlphaMap::MODULATE => "MODULATE"@,
        AlphaMap::REPLACE => "REPLACE"@,
        AlphaMap::PASS => "PASS"@,
        AlphaMap::ADD => "ADD"@,
        AlphaMap::SUB => "SUB"@,
        AlphaMap::Unknown(v) => "Unknown_"@ + dec(v as nat),
    }
}

/// The name the dump gives a texture alpha operation (`Unknown_N` for an
/// unrecognized value).
pub fn alpha_op_name(a: AlphaMap) -> (s: String)
    ensures
        s@ == alpha_name(a),
{
    let mut s = String::new();
    match a {
        AlphaMap::NONE => s.append("NONE"),
        AlphaMap::ALPHA_MASK => s.append("ALPHA_MASK"),
        AlphaMap::BLEND => s.append("BLEND"),
        AlphaMap::MODULATE => s.append("MODULATE"),
        AlphaMap::REPLACE => s.append("REPLACE"),
        AlphaMap::PASS => s.append("PASS"),
        AlphaMap::ADD => s.append("ADD"),
        AlphaMap::SUB => s.append("SUB"),
        AlphaMap::Unknown(v) => {
            s.append("Unknown_");
            push_dec(&mut s, v);
        },
    }
    proof {
        assert(s@ =~= alpha_name(a));
    }
    s
}

/// The cull mode a POBJ's flag bits name: both, back, front or none.
pub open spec fn cull_of(flags: u16) -> Seq<char> {
    let back = flags & PObjFlag::CULLBACK == PObjFlag::CULLBACK;
    let front = flags & PObjFlag::CULLFRONT == PObjFlag::CULLFRONT;
    if back && front {
        "BOTH"@
    } else if back {
        "BACK"@
    } else if front {
        "FRONT"@
    } else {
        "NONE"@
    }
}

/// The cull mode the dump gives a POBJ with flags `flags`.
pub fn cull_name(flags: PObjFlag) -> (s: &'static str)
    ensures
        s@ == cull_of(flags.0),
{
    let cull_back = flags.contains(PObjFlag(PObjFlag::CULLBACK));
    let cull_front = flags.contains(PObjFlag(PObjFlag::CULLFRONT));
    if cull_back && cull_front {
        "BOTH"
    } else if cull_back {
        "BACK"
    } else if cull_front {
        "FRONT"
    } else {
        "NONE"
    }
}

/// Number of vertices of the groups before group `i`.
pub open spec fn run_start(counts: Seq<u32>, i: int) -> int
    decreases i,
{
    if i <= 0 {
        0
    } else {
        run_start(counts, i - 1) + counts[i - 1]
    }
}

/// The dumped primitives of a mesh whose groups have the given types and
/// vertex counts: group `i` indexes the vertices `run_start(i) ..
/// run_start(i) + count_i` of the flat vertex list.
pub fn primitive_runs(groups: &[(GxPrimitiveType, u32)]) -> (prims: Vec<PrimitiveDto>)
    requires
        run_start(groups@.map_values(|g: (GxPrimitiveType, u32)| g.1), groups@.len() as int) <= u32::MAX,
    ensures
        prims@.len() == groups@.len(),
        forall|i: int|
            0 <= i < groups@.len() ==> (#[trigger] prims@[i]).primitive_type@ == prim_name(groups@[i].0)
                && prims@[i].indices@ == Seq::new(
                groups@[i].1 as nat,
                |k: int| (run_start(groups@.map_values(|g: (GxPrimitiveType, u32)| g.1), i) + k) as u32,
            ),
{
    let ghost counts = groups@.map_values(|g: (GxPrimitiveType, u32)| g.1);
    let mut prims: Vec<PrimitiveDto> = Vec::new();
    let mut cursor: u32 = 0;
    let mut g: usize = 0;
    while g < groups.len()
        invariant
            g <= groups@.len(),
            counts == groups@.map_values(|g: (GxPrimitiveType, u32)| g.1),
            run_start(counts, groups@.len() as int) <= u32::MAX,
            cursor == run_start(counts, g as int),
            prims@.len() == g,
            forall|i: int|
                0 <= i < g ==> (#[trigger] prims@[i]).primitive_type@ == prim_name(groups@[i].0)
                    && prims@[i].indices@ == Seq::new(groups@[i].1 as nat, |k: int| (run_start(counts, i) + k) as u32),
        decreases groups@.len() - g,
    {
        let (pt, n) = groups[g];
        proof {
            lemma_run_start_mono(counts, g + 1, groups@.len() as int);
        }
        let mut indices: Vec<u32> = Vec::new();
        let mut i: u32 = 0;
        while i < n
            invariant
                i <= n,
                cursor as int + n <= u32::MAX,
                indices@ == Seq::new(i as nat, |k: int| (cursor + k) as u32),
            decreases n - i,
        {
            indices.push(cursor + i);
            proof {
                assert(indices@ =~= Seq::new((i + 1) as nat, |k: int| (cursor + k) as u32));
            }
            i = i + 1;
        }
        let name = primitive_type_name(pt);
        prims.push(PrimitiveDto { primitive_type: name, indices });
        cursor = cursor + n;
        g = g + 1;
    }
    prims
}

proof fn lemma_run_start_mono(counts: Seq<u32>, i: int, j: int)
    requires
        0 <= i <= j,
    ensures
        run_start(counts, i) <= run_start(counts, j),
    decreases j - i,
{
    if i < j {
        lemma_run_start_mono(counts, i, j - 1);
    }
}

} // verus!
