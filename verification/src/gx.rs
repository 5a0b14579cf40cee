//! GX enums and the flag sets of the HSD structs.
//!
//! Flag sets are plain bit wrappers with `from_bits_retain` semantics so
//! unknown bits round-trip unchanged; plain enums carry an `Unknown` variant
//! for the same reason.

use vstd::prelude::*;
use vstd::utf8::{encode_utf8, encode_utf8_decode_utf8};

verus! {

/// `JOBJ_FLAG`: the flags of a joint.
#[derive(Copy, Clone, Debug, PartialEq, Eq, Default, Structural)]
pub struct JObjFlag(pub u32);

impl JObjFlag {
    pub const SKELETON: u32 = 0x1;
    pub const SKELETON_ROOT: u32 = 0x2;
    pub const ENVELOPE_MODEL: u32 = 0x4;
    pub const CLASSICAL_SCALING: u32 = 0x8;
    pub const HIDDEN: u32 = 0x10;
    pub const PTCL: u32 = 0x20;
    pub const MTX_DIRTY: u32 = 0x40;
    pub const LIGHTING: u32 = 0x80;
    pub const TEXGEN: u32 = 0x100;
    pub const BILLBOARD: u32 = 0x200;
    pub const VBILLBOARD: u32 = 0x400;
    pub const HBILLBOARD: u32 = 0x600;
    pub const RBILLBOARD: u32 = 0x800;
    pub const INSTANCE: u32 = 0x1000;
    pub const PBILLBOARD: u32 = 0x2000;
    pub const SPLINE: u32 = 0x4000;
    pub const FLIP_IK: u32 = 0x8000;
    pub const SPECULAR: u32 = 0x1_0000;
    pub const USE_QUATERNION: u32 = 0x2_0000;
    pub const OPA: u32 = 0x4_0000;
    pub const XLU: u32 = 0x8_0000;
    pub const TEXEDGE: u32 = 0x10_0000;
    pub const JOINT1: u32 = 0x20_0000;
    pub const JOINT2: u32 = 0x40_0000;
    pub const EFFECTOR: u32 = 0x60_0000;
    pub const USER_DEFINED_MTX: u32 = 0x80_0000;
    pub const MTX_INDEPEND_PARENT: u32 = 0x100_0000;
    pub const MTX_INDEPEND_SRT: u32 = 0x200_0000;
    pub const ROOT_OPA: u32 = 0x1000_0000;
    pub const ROOT_XLU: u32 = 0x2000_0000;
    pub const ROOT_TEXEDGE: u32 = 0x4000_0000;

    pub fn from_bits_retain(bits: u32) -> (f: Self)
        ensures
            f.0 == bits,
    {
        Self(bits)
    }

    pub fn bits(self) -> (b: u32)
        ensures
            b == self.0,
    {
        self.0
    }

    pub fn intersects(self, other: Self) -> (b: bool)
        ensures
            b == (self.0 & other.0 != 0),
    {
        (self.0 & other.0) != 0
    }

    pub fn contains(self, other: Self) -> (b: bool)
        ensures
            b == (self.0 & other.0 == other.0),
    {
        (self.0 & other.0) == other.0
    }

    /// Bitwise union.
    pub fn union(self, other: Self) -> (f: Self)
        ensures
            f.0 == self.0 | other.0,
    {
        Self(self.0 | other.0)
    }
}

/// `POBJ_FLAG`: the flags of a polygon object.
#[derive(Copy, Clone, Debug, PartialEq, Eq, Default, Structural)]
pub struct PObjFlag(pub u16);

impl PObjFlag {
    pub const SKIN: u16 = 0x0;
    pub const SHAPEANIM: u16 = 0x1000;
    pub const ENVELOPE: u16 = 0x2000;
    pub const SHAPESET: u16 = 0x200;
    /// `CULLBACK` (= `1 << 14`): the bit lands inside
    /// the POBJ type mask (0xE000) without matching any valid POBJ type, so
    /// renderers dispatching on the type nibble treat it as an unknown POBJ.
    /// Cull mode belongs on `PeDesc`; kept for reading legacy files only.
    pub const CULLBACK: u16 = 0x4000;
    /// `CULLFRONT` (= `1 << 15`).  Same trap as
    /// `CULLBACK`.  Use `PeDesc` for cull mode.
    pub const CULLFRONT: u16 = 0x8000;

    pub fn from_bits_retain(bits: u16) -> (f: Self)
        ensures
            f.0 == bits,
    {
        Self(bits)
    }

    pub fn bits(self) -> (b: u16)
        ensures
            b == self.0,
    {
        self.0
    }

    pub fn intersects(self, other: Self) -> (b: bool)
        ensures
            b == (self.0 & other.0 != 0),
    {
        (self.0 & other.0) != 0
    }

    pub fn contains(self, other: Self) -> (b: bool)
        ensures
            b == (self.0 & other.0 == other.0),
    {
        (self.0 & other.0) == other.0
    }

    /// Bitwise union.
    pub fn union(self, other: Self) -> (f: Self)
        ensures
            f.0 == self.0 | other.0,
    {
        Self(self.0 | other.0)
    }
}

/// `RENDER_MODE` of an MObj.
#[derive(Copy, Clone, Debug, PartialEq, Eq, Default, Structural)]
pub struct MaterialRenderMode(pub u32);

impl MaterialRenderMode {
    pub const CONSTANT: u32 = 0x1;
    pub const VERTEX: u32 = 0x2;
    pub const BOTH: u32 = 0x3;
    pub const DIFFUSE: u32 = 0x4;
    pub const SPECULAR: u32 = 0x8;
    pub const TEX0: u32 = 0x10;
    pub const TEX1: u32 = 0x20;
    pub const TEX2: u32 = 0x40;
    pub const TEX3: u32 = 0x80;
    pub const TEX4: u32 = 0x100;
    pub const TEX5: u32 = 0x200;
    pub const TEX6: u32 = 0x400;
    pub const TEX7: u32 = 0x800;
    pub const TOON: u32 = 0x1000;
    pub const ALPHA_MAT: u32 = 0x2000;
    pub const ALPHA_VTX: u32 = 0x4000;
    pub const ALPHA_BOTH: u32 = 0x6000;
    pub const ZOFST: u32 = 0x100_0000;
    pub const EFFECT: u32 = 0x200_0000;
    pub const SHADOW: u32 = 0x400_0000;
    pub const ZMODE_ALWAYS: u32 = 0x800_0000;
    pub const DF_ALL: u32 = 0x1000_0000;
    pub const NO_ZUPDATE: u32 = 0x2000_0000;
    pub const XLU: u32 = 0x4000_0000;
    pub const USER: u32 = 0x8000_0000;

    pub fn from_bits_retain(bits: u32) -> (f: Self)
        ensures
            f.0 == bits,
    {
        Self(bits)
    }

    pub fn bits(self) -> (b: u32)
        ensures
            b == self.0,
    {
        self.0
    }

    pub fn intersects(self, other: Self) -> (b: bool)
        ensures
            b == (self.0 & other.0 != 0),
    {
        (self.0 & other.0) != 0
    }

    /// Bitwise union.
    pub fn union(self, other: Self) -> (f: Self)
        ensures
            f.0 == self.0 | other.0,
    {
        Self(self.0 | other.0)
    }
}

/// `TOBJ_FLAGS`: the flags of a texture object.
#[derive(Copy, Clone, Debug, PartialEq, Eq, Default, Structural)]
pub struct TObjFlags(pub u32);

impl TObjFlags {
    pub const LIGHTMAP_DIFFUSE: u32 = 0x10;
    pub const LIGHTMAP_SPECULAR: u32 = 0x20;
    pub const LIGHTMAP_AMBIENT: u32 = 0x40;
    pub const LIGHTMAP_EXT: u32 = 0x80;
    pub const LIGHTMAP_SHADOW: u32 = 0x100;
    pub const BUMP: u32 = 0x100_0000;
    pub const MTX_DIRTY: u32 = 0x8000_0000;

    pub fn from_bits_retain(bits: u32) -> (f: Self)
        ensures
            f.0 == bits,
    {
        Self(bits)
    }

    pub fn bits(self) -> (b: u32)
        ensures
            b == self.0,
    {
        self.0
    }

    pub fn intersects(self, other: Self) -> (b: bool)
        ensures
            b == (self.0 & other.0 != 0),
    {
        (self.0 & other.0) != 0
    }
}

// =====================================================================
// Flag names: composite names first, the rest in ascending value.
// =====================================================================

/// Greedy decomposition of `rem` against `t` (masks sorted descending):
/// each mask fully contained in what is left is taken and cleared, until
/// nothing is left.
pub open spec fn greedy_names(rem: u32, t: Seq<(u32, &'static str)>) -> Seq<&'static str>
    decreases t.len(),
{
    if rem == 0 || t.len() == 0 {
        seq![]
    } else if rem & t[0].0 == t[0].0 {
        seq![t[0].1] + greedy_names(rem & !t[0].0, t.drop_first())
    } else {
        greedy_names(rem, t.drop_first())
    }
}

/// Names of `bits` in ascending numeric order; `zero_name` (if any) alone
/// when `bits` is zero.
pub open spec fn flag_names_of(
    bits: u32,
    t: Seq<(u32, &'static str)>,
    zero_name: Option<&'static str>,
) -> Seq<&'static str> {
    if bits == 0 {
        match zero_name {
            Some(n) => seq![n],
            None => seq![],
        }
    } else {
        greedy_names(bits, t).reverse()
    }
}

/// Greedy-match `bits` against `table` (entries sorted by descending mask),
/// then list the matched names in ascending numeric value.  When `bits == 0` and `zero_name`
/// is `Some(n)`, returns `[n]`.
pub fn flag_names_for(
    bits: u32,
    table: &[(u32, &'static str)],
    zero_name: Option<&'static str>,
) -> (names: Vec<&'static str>)
    ensures
        names@ == flag_names_of(bits, table@, zero_name),
{
    if bits == 0 {
        return match zero_name {
            Some(n) => vec![n],
            None => Vec::new(),
        };
    }
    let mut remaining = bits;
    let mut picked: Vec<&'static str> = Vec::new();
    let mut i: usize = 0;
    proof {
        assert(table@.skip(0) =~= table@);
    }
    while i < table.len() && remaining != 0
        invariant
            i <= table@.len(),
            picked@ + greedy_names(remaining, table@.skip(i as int)) == greedy_names(bits, table@),
        decreases table@.len() - i,
    {
        let (mask, name) = table[i];
        let ghost rest = table@.skip(i as int);
        let ghost rem0 = remaining;
        let ghost before = picked@;
        proof {
            assert(rest[0] == (mask, name));
            assert(rest.drop_first() =~= table@.skip(i + 1));
        }
        if (remaining & mask) == mask {
            picked.push(name);
            remaining = remaining & !mask;
            proof {
                assert(greedy_names(rem0, rest) == seq![name] + greedy_names(remaining, table@.skip(
                    i + 1,
                )));
                assert(picked@ + greedy_names(remaining, table@.skip(i + 1)) =~= before
                    + greedy_names(rem0, rest));
            }
        }
        i = i + 1;
    }
    proof {
        assert(picked@ =~= picked@ + greedy_names(remaining, table@.skip(i as int)));
    }
    let mut names: Vec<&'static str> = Vec::new();
    let mut j: usize = picked.len();
    while j > 0
        invariant
            j <= picked@.len(),
            names@ =~= picked@.subrange(j as int, picked@.len() as int).reverse(),
        decreases j,
    {
        j = j - 1;
        names.push(picked[j]);
    }
    names
}

/// `RENDER_MODE` names by descending mask; composites before their parts.
pub open spec fn render_flag_table() -> Seq<(u32, &'static str)> {
    seq![
        (0x80000000u32, "USER"),
        (0x40000000u32, "XLU"),
        (0x20000000u32, "NO_ZUPDATE"),
        (0x10000000u32, "DF_ALL"),
        (0x8000000u32, "ZMODE_ALWAYS"),
        (0x4000000u32, "SHADOW"),
        (0x2000000u32, "EFFECT"),
        (0x1000000u32, "ZOFST"),
        (0x6000u32, "ALPHA_BOTH"),
        (0x4000u32, "ALPHA_VTX"),
        (0x2000u32, "ALPHA_MAT"),
        (0x1000u32, "TOON"),
        (0x800u32, "TEX7"),
        (0x400u32, "TEX6"),
        (0x200u32, "TEX5"),
        (0x100u32, "TEX4"),
        (0x80u32, "TEX3"),
        (0x40u32, "TEX2"),
        (0x20u32, "TEX1"),
        (0x10u32, "TEX0"),
        (0x8u32, "SPECULAR"),
        (0x4u32, "DIFFUSE"),
        (0x3u32, "BOTH"),
        (0x2u32, "VERTEX"),
        (0x1u32, "CONSTANT"),
    ]
}

/// `JOBJ_FLAG` names by descending mask; composites before their parts.
pub open spec fn jobj_flag_table() -> Seq<(u32, &'static str)> {
    seq![
        (0x40000000u32, "ROOT_TEXEDGE"),
        (0x20000000u32, "ROOT_XLU"),
        (0x10000000u32, "ROOT_OPA"),
        (0x2000000u32, "MTX_INDEPEND_SRT"),
        (0x1000000u32, "MTX_INDEPEND_PARENT"),
        (0x800000u32, "USER_DEFINED_MTX"),
        (0x600000u32, "EFFECTOR"),
        (0x400000u32, "JOINT2"),
        (0x200000u32, "JOINT1"),
        (0x100000u32, "TEXEDGE"),
        (0x80000u32, "XLU"),
        (0x40000u32, "OPA"),
        (0x20000u32, "USE_QUATERNION"),
        (0x10000u32, "SPECULAR"),
        (0x8000u32, "FLIP_IK"),
        (0x4000u32, "SPLINE"),
        (0x2000u32, "PBILLBOARD"),
        (0x1000u32, "INSTANCE"),
        (0x800u32, "RBILLBOARD"),
        (0x600u32, "HBILLBOARD"),
        (0x400u32, "VBILLBOARD"),
        (0x200u32, "BILLBOARD"),
        (0x100u32, "TEXGEN"),
        (0x80u32, "LIGHTING"),
        (0x40u32, "MTX_DIRTY"),
        (0x20u32, "PTCL"),
        (0x10u32, "HIDDEN"),
        (0x8u32, "CLASSICAL_SCALING"),
        (0x4u32, "ENVELOPE_MODEL"),
        (0x2u32, "SKELETON_ROOT"),
        (0x1u32, "SKELETON"),
    ]
}

/// `MaterialRenderMode` flag names for stringification: the enum's variant
/// names, as a dump prints them.  `RENDER_MODE` has no named zero,
/// so zero yields no names.
pub fn render_flag_names(flags: MaterialRenderMode) -> (names: Vec<&'static str>)
    ensures
        names@ == flag_names_of(flags.0, render_flag_table(), None),
{
    let table: [(u32, &'static str); 25] = [
        (0x80000000u32, "USER"),
        (0x40000000u32, "XLU"),
        (0x20000000u32, "NO_ZUPDATE"),
        (0x10000000u32, "DF_ALL"),
        (0x8000000u32, "ZMODE_ALWAYS"),
        (0x4000000u32, "SHADOW"),
        (0x2000000u32, "EFFECT"),
        (0x1000000u32, "ZOFST"),
        (0x6000u32, "ALPHA_BOTH"),
        (0x4000u32, "ALPHA_VTX"),
        (0x2000u32, "ALPHA_MAT"),
        (0x1000u32, "TOON"),
        (0x800u32, "TEX7"),
        (0x400u32, "TEX6"),
        (0x200u32, "TEX5"),
        (0x100u32, "TEX4"),
        (0x80u32, "TEX3"),
        (0x40u32, "TEX2"),
        (0x20u32, "TEX1"),
        (0x10u32, "TEX0"),
        (0x8u32, "SPECULAR"),
        (0x4u32, "DIFFUSE"),
        (0x3u32, "BOTH"),
        (0x2u32, "VERTEX"),
        (0x1u32, "CONSTANT"),
    ];
    proof {
        assert(table@ =~= render_flag_table());
    }
    flag_names_for(flags.bits(), table.as_slice(), None)
}

/// `JObjFlag` flag names: `"NULL"` for zero, greedy composites,
/// ascending order.
pub fn jobj_flag_names(flags: JObjFlag) -> (names: Vec<&'static str>)
    ensures
        names@ == flag_names_of(flags.0, jobj_flag_table(), Some("NULL")),
{
    let table: [(u32, &'static str); 31] = [
        (0x40000000u32, "ROOT_TEXEDGE"),
        (0x20000000u32, "ROOT_XLU"),
        (0x10000000u32, "ROOT_OPA"),
        (0x2000000u32, "MTX_INDEPEND_SRT"),
        (0x1000000u32, "MTX_INDEPEND_PARENT"),
        (0x800000u32, "USER_DEFINED_MTX"),
        (0x600000u32, "EFFECTOR"),
        (0x400000u32, "JOINT2"),
        (0x200000u32, "JOINT1"),
        (0x100000u32, "TEXEDGE"),
        (0x80000u32, "XLU"),
        (0x40000u32, "OPA"),
        (0x20000u32, "USE_QUATERNION"),
        (0x10000u32, "SPECULAR"),
        (0x8000u32, "FLIP_IK"),
        (0x4000u32, "SPLINE"),
        (0x2000u32, "PBILLBOARD"),
        (0x1000u32, "INSTANCE"),
        (0x800u32, "RBILLBOARD"),
        (0x600u32, "HBILLBOARD"),
        (0x400u32, "VBILLBOARD"),
        (0x200u32, "BILLBOARD"),
        (0x100u32, "TEXGEN"),
        (0x80u32, "LIGHTING"),
        (0x40u32, "MTX_DIRTY"),
        (0x20u32, "PTCL"),
        (0x10u32, "HIDDEN"),
        (0x8u32, "CLASSICAL_SCALING"),
        (0x4u32, "ENVELOPE_MODEL"),
        (0x2u32, "SKELETON_ROOT"),
        (0x1u32, "SKELETON"),
    ];
    proof {
        assert(table@ =~= jobj_flag_table());
    }
    flag_names_for(flags.bits(), table.as_slice(), Some("NULL"))
}

/// Mask of the first entry of `t` named `name`.
pub open spec fn lookup_flag(t: Seq<(u32, &'static str)>, name: Seq<char>) -> Option<u32>
    decreases t.len(),
{
    if t.len() == 0 {
        None
    } else if t[0].1@ == name {
        Some(t[0].0)
    } else {
        lookup_flag(t.drop_first(), name)
    }
}

/// The `JObjFlag` bits a `JOBJ_FLAG` name stands for (`"NULL"` is zero).
pub open spec fn jobj_flag_of_name(name: Seq<char>) -> Option<u32> {
    if name == "NULL"@ {
        Some(0u32)
    } else {
        lookup_flag(jobj_flag_table(), name)
    }
}

/// Character equality of two strings.
pub fn str_eq(a: &str, b: &str) -> (same: bool)
    ensures
        same == (a@ == b@),
{
    let x = a.as_bytes();
    let y = b.as_bytes();
    proof {
        encode_utf8_decode_utf8(a@);
        encode_utf8_decode_utf8(b@);
        assert(x@ == encode_utf8(a@));
        assert(y@ == encode_utf8(b@));
    }
    if x.len() != y.len() {
        return false;
    }
    let mut i: usize = 0;
    while i < x.len()
        invariant
            x@.len() == y@.len(),
            x@ == encode_utf8(a@),
            y@ == encode_utf8(b@),
            i <= x@.len(),
            forall|j: int| 0 <= j < i ==> x@[j] == y@[j],
        decreases x@.len() - i,
    {
        if x[i] != y[i] {
            proof {
                assert(x@[i as int] != y@[i as int]);
                assert(x@ != y@);
            }
            return false;
        }
        i = i + 1;
    }
    proof {
        assert(x@ =~= y@);
    }
    true
}

/// Inverse of [`jobj_flag_names`]: the flag a single name stands for.
pub fn jobj_flag_from_name(name: &str) -> (f: Option<JObjFlag>)
    ensures
        f matches Some(v) ==> jobj_flag_of_name(name@) == Some(v.0),
        f is None ==> jobj_flag_of_name(name@) is None,
{
    if str_eq(name, "NULL") {
        return Some(JObjFlag(0));
    }
    let table: [(u32, &'static str); 31] = [
        (0x40000000u32, "ROOT_TEXEDGE"),
        (0x20000000u32, "ROOT_XLU"),
        (0x10000000u32, "ROOT_OPA"),
        (0x2000000u32, "MTX_INDEPEND_SRT"),
        (0x1000000u32, "MTX_INDEPEND_PARENT"),
        (0x800000u32, "USER_DEFINED_MTX"),
        (0x600000u32, "EFFECTOR"),
        (0x400000u32, "JOINT2"),
        (0x200000u32, "JOINT1"),
        (0x100000u32, "TEXEDGE"),
        (0x80000u32, "XLU"),
        (0x40000u32, "OPA"),
        (0x20000u32, "USE_QUATERNION"),
        (0x10000u32, "SPECULAR"),
        (0x8000u32, "FLIP_IK"),
        (0x4000u32, "SPLINE"),
        (0x2000u32, "PBILLBOARD"),
        (0x1000u32, "INSTANCE"),
        (0x800u32, "RBILLBOARD"),
        (0x600u32, "HBILLBOARD"),
        (0x400u32, "VBILLBOARD"),
        (0x200u32, "BILLBOARD"),
        (0x100u32, "TEXGEN"),
        (0x80u32, "LIGHTING"),
        (0x40u32, "MTX_DIRTY"),
        (0x20u32, "PTCL"),
        (0x10u32, "HIDDEN"),
        (0x8u32, "CLASSICAL_SCALING"),
        (0x4u32, "ENVELOPE_MODEL"),
        (0x2u32, "SKELETON_ROOT"),
        (0x1u32, "SKELETON"),
    ];
    proof {
        assert(table@ =~= jobj_flag_table());
        assert(table@.skip(0) =~= table@);
    }
    let mut i: usize = 0;
    while i < table.len()
        invariant
            i <= table@.len(),
            table@ == jobj_flag_table(),
            name@ != "NULL"@,
            lookup_flag(table@.skip(i as int), name@) == jobj_flag_of_name(name@),
        decreases table@.len() - i,
    {
        let (mask, n) = table[i];
        proof {
            assert(table@.skip(i as int)[0] == (mask, n));
            assert(table@.skip(i as int).drop_first() =~= table@.skip(i + 1));
        }
        if str_eq(n, name) {
            return Some(JObjFlag(mask));
        }
        i = i + 1;
    }
    None
}


/// GX texture format.  Unrecognized values are kept as `Unknown` so they round-trip.
#[allow(non_camel_case_types)]
#[derive(Copy, Clone, Debug, PartialEq, Eq, Structural)]
pub enum GxTexFmt {
    I4,
    I8,
    IA4,
    IA8,
    RGB565,
    RGB5A3,
    RGBA8,
    CI4,
    CI8,
    CI14X2,
    CMP,
    Unknown(u32),
}

impl GxTexFmt {
    /// The variant a raw value names.
    pub open spec fn of_raw(v: u32) -> Self {
        if v == 0 {
            GxTexFmt::I4
        } else if v == 1 {
            GxTexFmt::I8
        } else if v == 2 {
            GxTexFmt::IA4
        } else if v == 3 {
            GxTexFmt::IA8
        } else if v == 4 {
            GxTexFmt::RGB565
        } else if v == 5 {
            GxTexFmt::RGB5A3
        } else if v == 6 {
            GxTexFmt::RGBA8
        } else if v == 8 {
            GxTexFmt::CI4
        } else if v == 9 {
            GxTexFmt::CI8
        } else if v == 10 {
            GxTexFmt::CI14X2
        } else if v == 14 {
            GxTexFmt::CMP
        } else {
            GxTexFmt::Unknown(v)
        }
    }

    /// The raw value of a variant.
    pub open spec fn raw_of(self) -> u32 {
        match self {
            GxTexFmt::I4 => 0,
            GxTexFmt::I8 => 1,
            GxTexFmt::IA4 => 2,
            GxTexFmt::IA8 => 3,
            GxTexFmt::RGB565 => 4,
            GxTexFmt::RGB5A3 => 5,
            GxTexFmt::RGBA8 => 6,
            GxTexFmt::CI4 => 8,
            GxTexFmt::CI8 => 9,
            GxTexFmt::CI14X2 => 10,
            GxTexFmt::CMP => 14,
            GxTexFmt::Unknown(x) => x,
        }
    }

    pub fn from_raw(v: u32) -> (e: Self)
        ensures
            e == Self::of_raw(v),
            e.raw_of() == v,
    {
        match v {
            0 => GxTexFmt::I4,
            1 => GxTexFmt::I8,
            2 => GxTexFmt::IA4,
            3 => GxTexFmt::IA8,
            4 => GxTexFmt::RGB565,
            5 => GxTexFmt::RGB5A3,
            6 => GxTexFmt::RGBA8,
            8 => GxTexFmt::CI4,
            9 => GxTexFmt::CI8,
            10 => GxTexFmt::CI14X2,
            14 => GxTexFmt::CMP,
            other => GxTexFmt::Unknown(other),
        }
    }

    pub fn raw(self) -> (v: u32)
        ensures
            v == self.raw_of(),
    {
        match self {
            GxTexFmt::I4 => 0,
            GxTexFmt::I8 => 1,
            GxTexFmt::IA4 => 2,
            GxTexFmt::IA8 => 3,
            GxTexFmt::RGB565 => 4,
            GxTexFmt::RGB5A3 => 5,
            GxTexFmt::RGBA8 => 6,
            GxTexFmt::CI4 => 8,
            GxTexFmt::CI8 => 9,
            GxTexFmt::CI14X2 => 10,
            GxTexFmt::CMP => 14,
            GxTexFmt::Unknown(x) => x,
        }
    }
}

/// GX palette (TLUT) format.  Unrecognized values are kept as `Unknown` so they round-trip.
#[allow(non_camel_case_types)]
#[derive(Copy, Clone, Debug, PartialEq, Eq, Structural)]
pub enum GxTlutFmt {
    IA8,
    RGB565,
    RGB5A3,
    Unknown(u32),
}

impl GxTlutFmt {
    /// The variant a raw value names.
    pub open spec fn of_raw(v: u32) -> Self {
        if v == 0 {
            GxTlutFmt::IA8
        } else if v == 1 {
            GxTlutFmt::RGB565
        } else if v == 2 {
            GxTlutFmt::RGB5A3
        } else {
            GxTlutFmt::Unknown(v)
        }
    }

    /// The raw value of a variant.
    pub open spec fn raw_of(self) -> u32 {
        match self {
            GxTlutFmt::IA8 => 0,
            GxTlutFmt::RGB565 => 1,
            GxTlutFmt::RGB5A3 => 2,
            GxTlutFmt::Unknown(x) => x,
        }
    }

    pub fn from_raw(v: u32) -> (e: Self)
        ensures
            e == Self::of_raw(v),
            e.raw_of() == v,
    {
        match v {
            0 => GxTlutFmt::IA8,
            1 => GxTlutFmt::RGB565,
            2 => GxTlutFmt::RGB5A3,
            other => GxTlutFmt::Unknown(other),
        }
    }

    pub fn raw(self) -> (v: u32)
        ensures
            v == self.raw_of(),
    {
        match self {
            GxTlutFmt::IA8 => 0,
            GxTlutFmt::RGB565 => 1,
            GxTlutFmt::RGB5A3 => 2,
            GxTlutFmt::Unknown(x) => x,
        }
    }
}

/// GX texture map slot.  Unrecognized values are kept as `Unknown` so they round-trip.
#[allow(non_camel_case_types)]
#[derive(Copy, Clone, Debug, PartialEq, Eq, Structural)]
pub enum GxTexMapId {
    GX_TEXMAP0,
    GX_TEXMAP1,
    GX_TEXMAP2,
    GX_TEXMAP3,
    GX_TEXMAP4,
    GX_TEXMAP5,
    GX_TEXMAP6,
    GX_TEXMAP7,
    GX_MAX_TEXMAP,
    GX_TEXMAP_NULL,
    GX_TEXMAP_DISABLE,
    Unknown(u32),
}

impl GxTexMapId {
    /// The variant a raw value names.
    pub open spec fn of_raw(v: u32) -> Self {
        if v == 0 {
            GxTexMapId::GX_TEXMAP0
        } else if v == 1 {
            GxTexMapId::GX_TEXMAP1
        } else if v == 2 {
            GxTexMapId::GX_TEXMAP2
        } else if v == 3 {
            GxTexMapId::GX_TEXMAP3
        } else if v == 4 {
            GxTexMapId::GX_TEXMAP4
        } else if v == 5 {
            GxTexMapId::GX_TEXMAP5
        } else if v == 6 {
            GxTexMapId::GX_TEXMAP6
        } else if v == 7 {
            GxTexMapId::GX_TEXMAP7
        } else if v == 8 {
            GxTexMapId::GX_MAX_TEXMAP
        } else if v == 9 {
            GxTexMapId::GX_TEXMAP_NULL
        } else if v == 10 {
            GxTexMapId::GX_TEXMAP_DISABLE
        } else {
            GxTexMapId::Unknown(v)
        }
    }

    /// The raw value of a variant.
    pub open spec fn raw_of(self) -> u32 {
        match self {
            GxTexMapId::GX_TEXMAP0 => 0,
            GxTexMapId::GX_TEXMAP1 => 1,
            GxTexMapId::GX_TEXMAP2 => 2,
            GxTexMapId::GX_TEXMAP3 => 3,
            GxTexMapId::GX_TEXMAP4 => 4,
            GxTexMapId::GX_TEXMAP5 => 5,
            GxTexMapId::GX_TEXMAP6 => 6,
            GxTexMapId::GX_TEXMAP7 => 7,
            GxTexMapId::GX_MAX_TEXMAP => 8,
            GxTexMapId::GX_TEXMAP_NULL => 9,
            GxTexMapId::GX_TEXMAP_DISABLE => 10,
            GxTexMapId::Unknown(x) => x,
        }
    }

    pub fn from_raw(v: u32) -> (e: Self)
        ensures
            e == Self::of_raw(v),
            e.raw_of() == v,
    {
        match v {
            0 => GxTexMapId::GX_TEXMAP0,
            1 => GxTexMapId::GX_TEXMAP1,
            2 => GxTexMapId::GX_TEXMAP2,
            3 => GxTexMapId::GX_TEXMAP3,
            4 => GxTexMapId::GX_TEXMAP4,
            5 => GxTexMapId::GX_TEXMAP5,
            6 => GxTexMapId::GX_TEXMAP6,
            7 => GxTexMapId::GX_TEXMAP7,
            8 => GxTexMapId::GX_MAX_TEXMAP,
            9 => GxTexMapId::GX_TEXMAP_NULL,
            10 => GxTexMapId::GX_TEXMAP_DISABLE,
            other => GxTexMapId::Unknown(other),
        }
    }

    pub fn raw(self) -> (v: u32)
        ensures
            v == self.raw_of(),
    {
        match self {
            GxTexMapId::GX_TEXMAP0 => 0,
            GxTexMapId::GX_TEXMAP1 => 1,
            GxTexMapId::GX_TEXMAP2 => 2,
            GxTexMapId::GX_TEXMAP3 => 3,
            GxTexMapId::GX_TEXMAP4 => 4,
            GxTexMapId::GX_TEXMAP5 => 5,
            GxTexMapId::GX_TEXMAP6 => 6,
            GxTexMapId::GX_TEXMAP7 => 7,
            GxTexMapId::GX_MAX_TEXMAP => 8,
            GxTexMapId::GX_TEXMAP_NULL => 9,
            GxTexMapId::GX_TEXMAP_DISABLE => 10,
            GxTexMapId::Unknown(x) => x,
        }
    }
}

/// Texture coordinate wrap mode.  Unrecognized values are kept as `Unknown` so they round-trip.
#[allow(non_camel_case_types)]
#[derive(Copy, Clone, Debug, PartialEq, Eq, Structural)]
pub enum GxWrapMode {
    CLAMP,
    REPEAT,
    MIRROR,
    Unknown(u32),
}

impl GxWrapMode {
    /// The variant a raw value names.
    pub open spec fn of_raw(v: u32) -> Self {
        if v == 0 {
            GxWrapMode::CLAMP
        } else if v == 1 {
            GxWrapMode::REPEAT
        } else if v == 2 {
            GxWrapMode::MIRROR
        } else {
            GxWrapMode::Unknown(v)
        }
    }

    /// The raw value of a variant.
    pub open spec fn raw_of(self) -> u32 {
        match self {
            GxWrapMode::CLAMP => 0,
            GxWrapMode::REPEAT => 1,
            GxWrapMode::MIRROR => 2,
            GxWrapMode::Unknown(x) => x,
        }
    }

    pub fn from_raw(v: u32) -> (e: Self)
        ensures
            e == Self::of_raw(v),
            e.raw_of() == v,
    {
        match v {
            0 => GxWrapMode::CLAMP,
            1 => GxWrapMode::REPEAT,
            2 => GxWrapMode::MIRROR,
            other => GxWrapMode::Unknown(other),
        }
    }

    pub fn raw(self) -> (v: u32)
        ensures
            v == self.raw_of(),
    {
        match self {
            GxWrapMode::CLAMP => 0,
            GxWrapMode::REPEAT => 1,
            GxWrapMode::MIRROR => 2,
            GxWrapMode::Unknown(x) => x,
        }
    }
}

/// Texture filter.  Unrecognized values are kept as `Unknown` so they round-trip.
#[allow(non_camel_case_types)]
#[derive(Copy, Clone, Debug, PartialEq, Eq, Structural)]
pub enum GxTexFilter {
    GX_NEAR,
    GX_LINEAR,
    GX_NEAR_MIP_NEAR,
    GX_LIN_MIP_NEAR,
    GX_NEAR_MIP_LIN,
    GX_LIN_MIP_LIN,
    Unknown(u32),
}

impl GxTexFilter {
    /// The variant a raw value names.
    pub open spec fn of_raw(v: u32) -> Self {
        if v == 0 {
            GxTexFilter::GX_NEAR
        } else if v == 1 {
            GxTexFilter::GX_LINEAR
        } else if v == 2 {
            GxTexFilter::GX_NEAR_MIP_NEAR
        } else if v == 3 {
            GxTexFilter::GX_LIN_MIP_NEAR
        } else if v == 4 {
            GxTexFilter::GX_NEAR_MIP_LIN
        } else if v == 5 {
            GxTexFilter::GX_LIN_MIP_LIN
        } else {
            GxTexFilter::Unknown(v)
        }
    }

    /// The raw value of a variant.
    pub open spec fn raw_of(self) -> u32 {
        match self {
            GxTexFilter::GX_NEAR => 0,
            GxTexFilter::GX_LINEAR => 1,
            GxTexFilter::GX_NEAR_MIP_NEAR => 2,
            GxTexFilter::GX_LIN_MIP_NEAR => 3,
            GxTexFilter::GX_NEAR_MIP_LIN => 4,
            GxTexFilter::GX_LIN_MIP_LIN => 5,
            GxTexFilter::Unknown(x) => x,
        }
    }

    pub fn from_raw(v: u32) -> (e: Self)
        ensures
            e == Self::of_raw(v),
            e.raw_of() == v,
    {
        match v {
            0 => GxTexFilter::GX_NEAR,
            1 => GxTexFilter::GX_LINEAR,
            2 => GxTexFilter::GX_NEAR_MIP_NEAR,
            3 => GxTexFilter::GX_LIN_MIP_NEAR,
            4 => GxTexFilter::GX_NEAR_MIP_LIN,
            5 => GxTexFilter::GX_LIN_MIP_LIN,
            other => GxTexFilter::Unknown(other),
        }
    }

    pub fn raw(self) -> (v: u32)
        ensures
            v == self.raw_of(),
    {
        match self {
            GxTexFilter::GX_NEAR => 0,
            GxTexFilter::GX_LINEAR => 1,
            GxTexFilter::GX_NEAR_MIP_NEAR => 2,
            GxTexFilter::GX_LIN_MIP_NEAR => 3,
            GxTexFilter::GX_NEAR_MIP_LIN => 4,
            GxTexFilter::GX_LIN_MIP_LIN => 5,
            GxTexFilter::Unknown(x) => x,
        }
    }
}

/// Anisotropic filtering level.  Unrecognized values are kept as `Unknown` so they round-trip.
#[allow(non_camel_case_types)]
#[derive(Copy, Clone, Debug, PartialEq, Eq, Structural)]
pub enum GxAnisotropy {
    GX_ANISO_1,
    GX_ANISO_2,
    GX_ANISO_4,
    GX_MAX_ANISOTROPY,
    Unknown(u32),
}

impl GxAnisotropy {
    /// The variant a raw value names.
    pub open spec fn of_raw(v: u32) -> Self {
        if v == 0 {
            GxAnisotropy::GX_ANISO_1
        } else if v == 1 {
            GxAnisotropy::GX_ANISO_2
        } else if v == 2 {
            GxAnisotropy::GX_ANISO_4
        } else if v == 3 {
            GxAnisotropy::GX_MAX_ANISOTROPY
        } else {
            GxAnisotropy::Unknown(v)
        }
    }

    /// The raw value of a variant.
    pub open spec fn raw_of(self) -> u32 {
        match self {
            GxAnisotropy::GX_ANISO_1 => 0,
            GxAnisotropy::GX_ANISO_2 => 1,
            GxAnisotropy::GX_ANISO_4 => 2,
            GxAnisotropy::GX_MAX_ANISOTROPY => 3,
            GxAnisotropy::Unknown(x) => x,
        }
    }

    pub fn from_raw(v: u32) -> (e: Self)
        ensures
            e == Self::of_raw(v),
            e.raw_of() == v,
    {
        match v {
            0 => GxAnisotropy::GX_ANISO_1,
            1 => GxAnisotropy::GX_ANISO_2,
            2 => GxAnisotropy::GX_ANISO_4,
            3 => GxAnisotropy::GX_MAX_ANISOTROPY,
            other => GxAnisotropy::Unknown(other),
        }
    }

    pub fn raw(self) -> (v: u32)
        ensures
            v == self.raw_of(),
    {
        match self {
            GxAnisotropy::GX_ANISO_1 => 0,
            GxAnisotropy::GX_ANISO_2 => 1,
            GxAnisotropy::GX_ANISO_4 => 2,
            GxAnisotropy::GX_MAX_ANISOTROPY => 3,
            GxAnisotropy::Unknown(x) => x,
        }
    }
}

/// Texture coordinate generation type (TObj flags, low nibble).  Unrecognized values are kept as `Unknown` so they round-trip.
#[allow(non_camel_case_types)]
#[derive(Copy, Clone, Debug, PartialEq, Eq, Structural)]
pub enum CoordType {
    UV,
    REFLECTION,
    HILIGHT,
    SHADOW,
    TOON,
    GRADATION,
    Unknown(u32),
}

impl CoordType {
    /// The variant a raw value names.
    pub open spec fn of_raw(v: u32) -> Self {
        if v == 0 {
            CoordType::UV
        } else if v == 1 {
            CoordType::REFLECTION
        } else if v == 2 {
            CoordType::HILIGHT
        } else if v == 3 {
            CoordType::SHADOW
        } else if v == 4 {
            CoordType::TOON
        } else if v == 5 {
            CoordType::GRADATION
        } else {
            CoordType::Unknown(v)
        }
    }

    /// The raw value of a variant.
    pub open spec fn raw_of(self) -> u32 {
        match self {
            CoordType::UV => 0,
            CoordType::REFLECTION => 1,
            CoordType::HILIGHT => 2,
            CoordType::SHADOW => 3,
            CoordType::TOON => 4,
            CoordType::GRADATION => 5,
            CoordType::Unknown(x) => x,
        }
    }

    pub fn from_raw(v: u32) -> (e: Self)
        ensures
            e == Self::of_raw(v),
            e.raw_of() == v,
    {
        match v {
            0 => CoordType::UV,
            1 => CoordType::REFLECTION,
            2 => CoordType::HILIGHT,
            3 => CoordType::SHADOW,
            4 => CoordType::TOON,
            5 => CoordType::GRADATION,
            other => CoordType::Unknown(other),
        }
    }

    pub fn raw(self) -> (v: u32)
        ensures
            v == self.raw_of(),
    {
        match self {
            CoordType::UV => 0,
            CoordType::REFLECTION => 1,
            CoordType::HILIGHT => 2,
            CoordType::SHADOW => 3,
            CoordType::TOON => 4,
            CoordType::GRADATION => 5,
            CoordType::Unknown(x) => x,
        }
    }
}

/// Texture colour operation (TObj flags, bits 16-19).  Unrecognized values are kept as `Unknown` so they round-trip.
#[allow(non_camel_case_types)]
#[derive(Copy, Clone, Debug, PartialEq, Eq, Structural)]
pub enum ColorMap {
    NONE,
    ALPHA_MASK,
    RGB_MASK,
    BLEND,
    MODULATE,
    REPLACE,
    PASS,
    ADD,
    SUB,
    Unknown(u32),
}

impl ColorMap {
    /// The variant a raw value names.
    pub open spec fn of_raw(v: u32) -> Self {
        if v == 0 {
            ColorMap::NONE
        } else if v == 1 {
            ColorMap::ALPHA_MASK
        } else if v == 2 {
            ColorMap::RGB_MASK
        } else if v == 3 {
            ColorMap::BLEND
        } else if v == 4 {
            ColorMap::MODULATE
        } else if v == 5 {
            ColorMap::REPLACE
        } else if v == 6 {
            ColorMap::PASS
        } else if v == 7 {
            ColorMap::ADD
        } else if v == 8 {
            ColorMap::SUB
        } else {
            ColorMap::Unknown(v)
        }
    }

    /// The raw value of a variant.
    pub open spec fn raw_of(self) -> u32 {
        match self {
            ColorMap::NONE => 0,
            ColorMap::ALPHA_MASK => 1,
            ColorMap::RGB_MASK => 2,
            ColorMap::BLEND => 3,
            ColorMap::MODULATE => 4,
            ColorMap::REPLACE => 5,
            ColorMap::PASS => 6,
            ColorMap::ADD => 7,
            ColorMap::SUB => 8,
            ColorMap::Unknown(x) => x,
        }
    }

    pub fn from_raw(v: u32) -> (e: Self)
        ensures
            e == Self::of_raw(v),
            e.raw_of() == v,
    {
        match v {
            0 => ColorMap::NONE,
            1 => ColorMap::ALPHA_MASK,
            2 => ColorMap::RGB_MASK,
            3 => ColorMap::BLEND,
            4 => ColorMap::MODULATE,
            5 => ColorMap::REPLACE,
            6 => ColorMap::PASS,
            7 => ColorMap::ADD,
            8 => ColorMap::SUB,
            other => ColorMap::Unknown(other),
        }
    }

    pub fn raw(self) -> (v: u32)
        ensures
            v == self.raw_of(),
    {
        match self {
            ColorMap::NONE => 0,
            ColorMap::ALPHA_MASK => 1,
            ColorMap::RGB_MASK => 2,
            ColorMap::BLEND => 3,
            ColorMap::MODULATE => 4,
            ColorMap::REPLACE => 5,
            ColorMap::PASS => 6,
            ColorMap::ADD => 7,
            ColorMap::SUB => 8,
            ColorMap::Unknown(x) => x,
        }
    }
}

/// Texture alpha operation (TObj flags, bits 20-23).  Unrecognized values are kept as `Unknown` so they round-trip.
#[allow(non_camel_case_types)]
#[derive(Copy, Clone, Debug, PartialEq, Eq, Structural)]
pub enum AlphaMap {
    NONE,
    ALPHA_MASK,
    BLEND,
    MODULATE,
    REPLACE,
    PASS,
    ADD,
    SUB,
    Unknown(u32),
}

impl AlphaMap {
    /// The variant a raw value names.
    pub open spec fn of_raw(v: u32) -> Self {
        if v == 0 {
            AlphaMap::NONE
        } else if v == 1 {
            AlphaMap::ALPHA_MASK
        } else if v == 2 {
            AlphaMap::BLEND
        } else if v == 3 {
            AlphaMap::MODULATE
        } else if v == 4 {
            AlphaMap::REPLACE
        } else if v == 5 {
            AlphaMap::PASS
        } else if v == 6 {
            AlphaMap::ADD
        } else if v == 7 {
            AlphaMap::SUB
        } else {
            AlphaMap::Unknown(v)
        }
    }

    /// The raw value of a variant.
    pub open spec fn raw_of(self) -> u32 {
        match self {
            AlphaMap::NONE => 0,
            AlphaMap::ALPHA_MASK => 1,
            AlphaMap::BLEND => 2,
            AlphaMap::MODULATE => 3,
            AlphaMap::REPLACE => 4,
            AlphaMap::PASS => 5,
            AlphaMap::ADD => 6,
            AlphaMap::SUB => 7,
            AlphaMap::Unknown(x) => x,
        }
    }

    pub fn from_raw(v: u32) -> (e: Self)
        ensures
            e == Self::of_raw(v),
            e.raw_of() == v,
    {
        match v {
            0 => AlphaMap::NONE,
            1 => AlphaMap::ALPHA_MASK,
            2 => AlphaMap::BLEND,
            3 => AlphaMap::MODULATE,
            4 => AlphaMap::REPLACE,
            5 => AlphaMap::PASS,
            6 => AlphaMap::ADD,
            7 => AlphaMap::SUB,
            other => AlphaMap::Unknown(other),
        }
    }

    pub fn raw(self) -> (v: u32)
        ensures
            v == self.raw_of(),
    {
        match self {
            AlphaMap::NONE => 0,
            AlphaMap::ALPHA_MASK => 1,
            AlphaMap::BLEND => 2,
            AlphaMap::MODULATE => 3,
            AlphaMap::REPLACE => 4,
            AlphaMap::PASS => 5,
            AlphaMap::ADD => 6,
            AlphaMap::SUB => 7,
            AlphaMap::Unknown(x) => x,
        }
    }
}

/// Display-list primitive opcode.  Unrecognized values are kept as `Unknown` so they round-trip.
#[allow(non_camel_case_types)]
#[derive(Copy, Clone, Debug, PartialEq, Eq, Structural)]
pub enum GxPrimitiveType {
    Quads,
    Triangles,
    TriangleStrip,
    TriangleFan,
    Lines,
    LineStrip,
    Points,
    Unknown(u8),
}

impl GxPrimitiveType {
    /// The variant a raw value names.
    pub open spec fn of_raw(v: u8) -> Self {
        if v == 128 {
            GxPrimitiveType::Quads
        } else if v == 144 {
            GxPrimitiveType::Triangles
        } else if v == 152 {
            GxPrimitiveType::TriangleStrip
        } else if v == 160 {
            GxPrimitiveType::TriangleFan
        } else if v == 168 {
            GxPrimitiveType::Lines
        } else if v == 176 {
            GxPrimitiveType::LineStrip
        } else if v == 184 {
            GxPrimitiveType::Points
        } else {
            GxPrimitiveType::Unknown(v)
        }
    }

    /// The raw value of a variant.
    pub open spec fn raw_of(self) -> u8 {
        match self {
            GxPrimitiveType::Quads => 128,
            GxPrimitiveType::Triangles => 144,
            GxPrimitiveType::TriangleStrip => 152,
            GxPrimitiveType::TriangleFan => 160,
            GxPrimitiveType::Lines => 168,
            GxPrimitiveType::LineStrip => 176,
            GxPrimitiveType::Points => 184,
            GxPrimitiveType::Unknown(x) => x,
        }
    }

    pub fn from_raw(v: u8) -> (e: Self)
        ensures
            e == Self::of_raw(v),
            e.raw_of() == v,
    {
        match v {
            128 => GxPrimitiveType::Quads,
            144 => GxPrimitiveType::Triangles,
            152 => GxPrimitiveType::TriangleStrip,
            160 => GxPrimitiveType::TriangleFan,
            168 => GxPrimitiveType::Lines,
            176 => GxPrimitiveType::LineStrip,
            184 => GxPrimitiveType::Points,
            other => GxPrimitiveType::Unknown(other),
        }
    }

    pub fn raw(self) -> (v: u8)
        ensures
            v == self.raw_of(),
    {
        match self {
            GxPrimitiveType::Quads => 128,
            GxPrimitiveType::Triangles => 144,
            GxPrimitiveType::TriangleStrip => 152,
            GxPrimitiveType::TriangleFan => 160,
            GxPrimitiveType::Lines => 168,
            GxPrimitiveType::LineStrip => 176,
            GxPrimitiveType::Points => 184,
            GxPrimitiveType::Unknown(x) => x,
        }
    }
}

/// Texture coordinate generation source.  Unrecognized values are kept as `Unknown` so they round-trip.
#[allow(non_camel_case_types)]
#[derive(Copy, Clone, Debug, PartialEq, Eq, Structural)]
pub enum GxTexGenSrc {
    GX_TG_POS,
    GX_TG_NRM,
    GX_TG_BINRM,
    GX_TG_TANGENT,
    GX_TG_TEX0,
    GX_TG_TEX1,
    GX_TG_TEX2,
    GX_TG_TEX3,
    GX_TG_TEX4,
    GX_TG_TEX5,
    GX_TG_TEX6,
    GX_TG_TEX7,
    GX_TG_TEXCOORD0,
    GX_TG_TEXCOORD1,
    GX_TG_TEXCOORD2,
    GX_TG_TEXCOORD3,
    GX_TG_TEXCOORD4,
    GX_TG_TEXCOORD5,
    GX_TG_TEXCOORD6,
    GX_TG_COLOR0,
    GX_TG_COLOR1,
    Unknown(u32),
}

impl GxTexGenSrc {
    /// The variant a raw value names.
    pub open spec fn of_raw(v: u32) -> Self {
        if v == 0 {
            GxTexGenSrc::GX_TG_POS
        } else if v == 1 {
            GxTexGenSrc::GX_TG_NRM
        } else if v == 2 {
            GxTexGenSrc::GX_TG_BINRM
        } else if v == 3 {
            GxTexGenSrc::GX_TG_TANGENT
        } else if v == 4 {
            GxTexGenSrc::GX_TG_TEX0
        } else if v == 5 {
            GxTexGenSrc::GX_TG_TEX1
        } else if v == 6 {
            GxTexGenSrc::GX_TG_TEX2
        } else if v == 7 {
            GxTexGenSrc::GX_TG_TEX3
        } else if v == 8 {
            GxTexGenSrc::GX_TG_TEX4
        } else if v == 9 {
            GxTexGenSrc::GX_TG_TEX5
        } else if v == 10 {
            GxTexGenSrc::GX_TG_TEX6
        } else if v == 11 {
            GxTexGenSrc::GX_TG_TEX7
        } else if v == 12 {
            GxTexGenSrc::GX_TG_TEXCOORD0
        } else if v == 13 {
            GxTexGenSrc::GX_TG_TEXCOORD1
        } else if v == 14 {
            GxTexGenSrc::GX_TG_TEXCOORD2
        } else if v == 15 {
            GxTexGenSrc::GX_TG_TEXCOORD3
        } else if v == 16 {
            GxTexGenSrc::GX_TG_TEXCOORD4
        } else if v == 17 {
            GxTexGenSrc::GX_TG_TEXCOORD5
        } else if v == 18 {
            GxTexGenSrc::GX_TG_TEXCOORD6
        } else if v == 19 {
            GxTexGenSrc::GX_TG_COLOR0
        } else if v == 20 {
            GxTexGenSrc::GX_TG_COLOR1
        } else {
            GxTexGenSrc::Unknown(v)
        }
    }

    /// The raw value of a variant.
    pub open spec fn raw_of(self) -> u32 {
        match self {
            GxTexGenSrc::GX_TG_POS => 0,
            GxTexGenSrc::GX_TG_NRM => 1,
            GxTexGenSrc::GX_TG_BINRM => 2,
            GxTexGenSrc::GX_TG_TANGENT => 3,
            GxTexGenSrc::GX_TG_TEX0 => 4,
            GxTexGenSrc::GX_TG_TEX1 => 5,
            GxTexGenSrc::GX_TG_TEX2 => 6,
            GxTexGenSrc::GX_TG_TEX3 => 7,
            GxTexGenSrc::GX_TG_TEX4 => 8,
            GxTexGenSrc::GX_TG_TEX5 => 9,
            GxTexGenSrc::GX_TG_TEX6 => 10,
            GxTexGenSrc::GX_TG_TEX7 => 11,
            GxTexGenSrc::GX_TG_TEXCOORD0 => 12,
            GxTexGenSrc::GX_TG_TEXCOORD1 => 13,
            GxTexGenSrc::GX_TG_TEXCOORD2 => 14,
            GxTexGenSrc::GX_TG_TEXCOORD3 => 15,
            GxTexGenSrc::GX_TG_TEXCOORD4 => 16,
            GxTexGenSrc::GX_TG_TEXCOORD5 => 17,
            GxTexGenSrc::GX_TG_TEXCOORD6 => 18,
            GxTexGenSrc::GX_TG_COLOR0 => 19,
            GxTexGenSrc::GX_TG_COLOR1 => 20,
            GxTexGenSrc::Unknown(x) => x,
        }
    }

    pub fn from_raw(v: u32) -> (e: Self)
        ensures
            e == Self::of_raw(v),
            e.raw_of() == v,
    {
        match v {
            0 => GxTexGenSrc::GX_TG_POS,
            1 => GxTexGenSrc::GX_TG_NRM,
            2 => GxTexGenSrc::GX_TG_BINRM,
            3 => GxTexGenSrc::GX_TG_TANGENT,
            4 => GxTexGenSrc::GX_TG_TEX0,
            5 => GxTexGenSrc::GX_TG_TEX1,
            6 => GxTexGenSrc::GX_TG_TEX2,
            7 => GxTexGenSrc::GX_TG_TEX3,
            8 => GxTexGenSrc::GX_TG_TEX4,
            9 => GxTexGenSrc::GX_TG_TEX5,
            10 => GxTexGenSrc::GX_TG_TEX6,
            11 => GxTexGenSrc::GX_TG_TEX7,
            12 => GxTexGenSrc::GX_TG_TEXCOORD0,
            13 => GxTexGenSrc::GX_TG_TEXCOORD1,
            14 => GxTexGenSrc::GX_TG_TEXCOORD2,
            15 => GxTexGenSrc::GX_TG_TEXCOORD3,
            16 => GxTexGenSrc::GX_TG_TEXCOORD4,
            17 => GxTexGenSrc::GX_TG_TEXCOORD5,
            18 => GxTexGenSrc::GX_TG_TEXCOORD6,
            19 => GxTexGenSrc::GX_TG_COLOR0,
            20 => GxTexGenSrc::GX_TG_COLOR1,
            other => GxTexGenSrc::Unknown(other),
        }
    }

    pub fn raw(self) -> (v: u32)
        ensures
            v == self.raw_of(),
    {
        match self {
            GxTexGenSrc::GX_TG_POS => 0,
            GxTexGenSrc::GX_TG_NRM => 1,
            GxTexGenSrc::GX_TG_BINRM => 2,
            GxTexGenSrc::GX_TG_TANGENT => 3,
            GxTexGenSrc::GX_TG_TEX0 => 4,
            GxTexGenSrc::GX_TG_TEX1 => 5,
            GxTexGenSrc::GX_TG_TEX2 => 6,
            GxTexGenSrc::GX_TG_TEX3 => 7,
            GxTexGenSrc::GX_TG_TEX4 => 8,
            GxTexGenSrc::GX_TG_TEX5 => 9,
            GxTexGenSrc::GX_TG_TEX6 => 10,
            GxTexGenSrc::GX_TG_TEX7 => 11,
            GxTexGenSrc::GX_TG_TEXCOORD0 => 12,
            GxTexGenSrc::GX_TG_TEXCOORD1 => 13,
            GxTexGenSrc::GX_TG_TEXCOORD2 => 14,
            GxTexGenSrc::GX_TG_TEXCOORD3 => 15,
            GxTexGenSrc::GX_TG_TEXCOORD4 => 16,
            GxTexGenSrc::GX_TG_TEXCOORD5 => 17,
            GxTexGenSrc::GX_TG_TEXCOORD6 => 18,
            GxTexGenSrc::GX_TG_COLOR0 => 19,
            GxTexGenSrc::GX_TG_COLOR1 => 20,
            GxTexGenSrc::Unknown(x) => x,
        }
    }
}

/// Vertex attribute name.  Unrecognized values are kept as `Unknown` so they round-trip.
#[allow(non_camel_case_types)]
#[derive(Copy, Clone, Debug, PartialEq, Eq, Structural)]
pub enum GxAttribName {
    GX_VA_PNMTXIDX,
    GX_VA_TEX0MTXIDX,
    GX_VA_TEX1MTXIDX,
    GX_VA_TEX2MTXIDX,
    GX_VA_TEX3MTXIDX,
    GX_VA_TEX4MTXIDX,
    GX_VA_TEX5MTXIDX,
    GX_VA_TEX6MTXIDX,
    GX_VA_TEX7MTXIDX,
    GX_VA_POS,
    GX_VA_NRM,
    GX_VA_CLR0,
    GX_VA_CLR1,
    GX_VA_TEX0,
    GX_VA_TEX1,
    GX_VA_TEX2,
    GX_VA_TEX3,
    GX_VA_TEX4,
    GX_VA_TEX5,
    GX_VA_TEX6,
    GX_VA_TEX7,
    GX_POS_MTX_ARRAY,
    GX_NRM_MTX_ARRAY,
    GX_TEX_MTX_ARRAY,
    GX_LIGHT_ARRAY,
    GX_VA_NBT,
    GX_VA_MAX_ATTR,
    GX_VA_NULL,
    Unknown(u32),
}

impl GxAttribName {
    /// The variant a raw value names.
    pub open spec fn of_raw(v: u32) -> Self {
        if v == 0 {
            GxAttribName::GX_VA_PNMTXIDX
        } else if v == 1 {
            GxAttribName::GX_VA_TEX0MTXIDX
        } else if v == 2 {
            GxAttribName::GX_VA_TEX1MTXIDX
        } else if v == 3 {
            GxAttribName::GX_VA_TEX2MTXIDX
        } else if v == 4 {
            GxAttribName::GX_VA_TEX3MTXIDX
        } else if v == 5 {
            GxAttribName::GX_VA_TEX4MTXIDX
        } else if v == 6 {
            GxAttribName::GX_VA_TEX5MTXIDX
        } else if v == 7 {
            GxAttribName::GX_VA_TEX6MTXIDX
        } else if v == 8 {
            GxAttribName::GX_VA_TEX7MTXIDX
        } else if v == 9 {
            GxAttribName::GX_VA_POS
        } else if v == 10 {
            GxAttribName::GX_VA_NRM
        } else if v == 11 {
            GxAttribName::GX_VA_CLR0
        } else if v == 12 {
            GxAttribName::GX_VA_CLR1
        } else if v == 13 {
            GxAttribName::GX_VA_TEX0
        } else if v == 14 {
            GxAttribName::GX_VA_TEX1
        } else if v == 15 {
            GxAttribName::GX_VA_TEX2
        } else if v == 16 {
            GxAttribName::GX_VA_TEX3
        } else if v == 17 {
            GxAttribName::GX_VA_TEX4
        } else if v == 18 {
            GxAttribName::GX_VA_TEX5
        } else if v == 19 {
            GxAttribName::GX_VA_TEX6
        } else if v == 20 {
            GxAttribName::GX_VA_TEX7
        } else if v == 21 {
            GxAttribName::GX_POS_MTX_ARRAY
        } else if v == 22 {
            GxAttribName::GX_NRM_MTX_ARRAY
        } else if v == 23 {
            GxAttribName::GX_TEX_MTX_ARRAY
        } else if v == 24 {
            GxAttribName::GX_LIGHT_ARRAY
        } else if v == 25 {
            GxAttribName::GX_VA_NBT
        } else if v == 26 {
            GxAttribName::GX_VA_MAX_ATTR
        } else if v == 255 {
            GxAttribName::GX_VA_NULL
        } else {
            GxAttribName::Unknown(v)
        }
    }

    /// The raw value of a variant.
    pub open spec fn raw_of(self) -> u32 {
        match self {
            GxAttribName::GX_VA_PNMTXIDX => 0,
            GxAttribName::GX_VA_TEX0MTXIDX => 1,
            GxAttribName::GX_VA_TEX1MTXIDX => 2,
            GxAttribName::GX_VA_TEX2MTXIDX => 3,
            GxAttribName::GX_VA_TEX3MTXIDX => 4,
            GxAttribName::GX_VA_TEX4MTXIDX => 5,
            GxAttribName::GX_VA_TEX5MTXIDX => 6,
            GxAttribName::GX_VA_TEX6MTXIDX => 7,
            GxAttribName::GX_VA_TEX7MTXIDX => 8,
            GxAttribName::GX_VA_POS => 9,
            GxAttribName::GX_VA_NRM => 10,
            GxAttribName::GX_VA_CLR0 => 11,
            GxAttribName::GX_VA_CLR1 => 12,
            GxAttribName::GX_VA_TEX0 => 13,
            GxAttribName::GX_VA_TEX1 => 14,
            GxAttribName::GX_VA_TEX2 => 15,
            GxAttribName::GX_VA_TEX3 => 16,
            GxAttribName::GX_VA_TEX4 => 17,
            GxAttribName::GX_VA_TEX5 => 18,
            GxAttribName::GX_VA_TEX6 => 19,
            GxAttribName::GX_VA_TEX7 => 20,
            GxAttribName::GX_POS_MTX_ARRAY => 21,
            GxAttribName::GX_NRM_MTX_ARRAY => 22,
            GxAttribName::GX_TEX_MTX_ARRAY => 23,
            GxAttribName::GX_LIGHT_ARRAY => 24,
            GxAttribName::GX_VA_NBT => 25,
            GxAttribName::GX_VA_MAX_ATTR => 26,
            GxAttribName::GX_VA_NULL => 255,
            GxAttribName::Unknown(x) => x,
        }
    }

    pub fn from_raw(v: u32) -> (e: Self)
        ensures
            e == Self::of_raw(v),
            e.raw_of() == v,
    {
        match v {
            0 => GxAttribName::GX_VA_PNMTXIDX,
            1 => GxAttribName::GX_VA_TEX0MTXIDX,
            2 => GxAttribName::GX_VA_TEX1MTXIDX,
            3 => GxAttribName::GX_VA_TEX2MTXIDX,
            4 => GxAttribName::GX_VA_TEX3MTXIDX,
            5 => GxAttribName::GX_VA_TEX4MTXIDX,
            6 => GxAttribName::GX_VA_TEX5MTXIDX,
            7 => GxAttribName::GX_VA_TEX6MTXIDX,
            8 => GxAttribName::GX_VA_TEX7MTXIDX,
            9 => GxAttribName::GX_VA_POS,
            10 => GxAttribName::GX_VA_NRM,
            11 => GxAttribName::GX_VA_CLR0,
            12 => GxAttribName::GX_VA_CLR1,
            13 => GxAttribName::GX_VA_TEX0,
            14 => GxAttribName::GX_VA_TEX1,
            15 => GxAttribName::GX_VA_TEX2,
            16 => GxAttribName::GX_VA_TEX3,
            17 => GxAttribName::GX_VA_TEX4,
            18 => GxAttribName::GX_VA_TEX5,
            19 => GxAttribName::GX_VA_TEX6,
            20 => GxAttribName::GX_VA_TEX7,
            21 => GxAttribName::GX_POS_MTX_ARRAY,
            22 => GxAttribName::GX_NRM_MTX_ARRAY,
            23 => GxAttribName::GX_TEX_MTX_ARRAY,
            24 => GxAttribName::GX_LIGHT_ARRAY,
            25 => GxAttribName::GX_VA_NBT,
            26 => GxAttribName::GX_VA_MAX_ATTR,
            255 => GxAttribName::GX_VA_NULL,
            other => GxAttribName::Unknown(other),
        }
    }

    pub fn raw(self) -> (v: u32)
        ensures
            v == self.raw_of(),
    {
        match self {
            GxAttribName::GX_VA_PNMTXIDX => 0,
            GxAttribName::GX_VA_TEX0MTXIDX => 1,
            GxAttribName::GX_VA_TEX1MTXIDX => 2,
            GxAttribName::GX_VA_TEX2MTXIDX => 3,
            GxAttribName::GX_VA_TEX3MTXIDX => 4,
            GxAttribName::GX_VA_TEX4MTXIDX => 5,
            GxAttribName::GX_VA_TEX5MTXIDX => 6,
            GxAttribName::GX_VA_TEX6MTXIDX => 7,
            GxAttribName::GX_VA_TEX7MTXIDX => 8,
            GxAttribName::GX_VA_POS => 9,
            GxAttribName::GX_VA_NRM => 10,
            GxAttribName::GX_VA_CLR0 => 11,
            GxAttribName::GX_VA_CLR1 => 12,
            GxAttribName::GX_VA_TEX0 => 13,
            GxAttribName::GX_VA_TEX1 => 14,
            GxAttribName::GX_VA_TEX2 => 15,
            GxAttribName::GX_VA_TEX3 => 16,
            GxAttribName::GX_VA_TEX4 => 17,
            GxAttribName::GX_VA_TEX5 => 18,
            GxAttribName::GX_VA_TEX6 => 19,
            GxAttribName::GX_VA_TEX7 => 20,
            GxAttribName::GX_POS_MTX_ARRAY => 21,
            GxAttribName::GX_NRM_MTX_ARRAY => 22,
            GxAttribName::GX_TEX_MTX_ARRAY => 23,
            GxAttribName::GX_LIGHT_ARRAY => 24,
            GxAttribName::GX_VA_NBT => 25,
            GxAttribName::GX_VA_MAX_ATTR => 26,
            GxAttribName::GX_VA_NULL => 255,
            GxAttribName::Unknown(x) => x,
        }
    }
}

/// Vertex attribute encoding in the display list.  Unrecognized values are kept as `Unknown` so they round-trip.
#[allow(non_camel_case_types)]
#[derive(Copy, Clone, Debug, PartialEq, Eq, Structural)]
pub enum GxAttribType {
    GX_NONE,
    GX_DIRECT,
    GX_INDEX8,
    GX_INDEX16,
    Unknown(u32),
}

impl GxAttribType {
    /// The variant a raw value names.
    pub open spec fn of_raw(v: u32) -> Self {
        if v == 0 {
            GxAttribType::GX_NONE
        } else if v == 1 {
            GxAttribType::GX_DIRECT
        } else if v == 2 {
            GxAttribType::GX_INDEX8
        } else if v == 3 {
            GxAttribType::GX_INDEX16
        } else {
            GxAttribType::Unknown(v)
        }
    }

    /// The raw value of a variant.
    pub open spec fn raw_of(self) -> u32 {
        match self {
            GxAttribType::GX_NONE => 0,
            GxAttribType::GX_DIRECT => 1,
            GxAttribType::GX_INDEX8 => 2,
            GxAttribType::GX_INDEX16 => 3,
            GxAttribType::Unknown(x) => x,
        }
    }

    pub fn from_raw(v: u32) -> (e: Self)
        ensures
            e == Self::of_raw(v),
            e.raw_of() == v,
    {
        match v {
            0 => GxAttribType::GX_NONE,
            1 => GxAttribType::GX_DIRECT,
            2 => GxAttribType::GX_INDEX8,
            3 => GxAttribType::GX_INDEX16,
            other => GxAttribType::Unknown(other),
        }
    }

    pub fn raw(self) -> (v: u32)
        ensures
            v == self.raw_of(),
    {
        match self {
            GxAttribType::GX_NONE => 0,
            GxAttribType::GX_DIRECT => 1,
            GxAttribType::GX_INDEX8 => 2,
            GxAttribType::GX_INDEX16 => 3,
            GxAttribType::Unknown(x) => x,
        }
    }
}

/// Vertex component type.  Unrecognized values are kept as `Unknown` so they round-trip.
#[allow(non_camel_case_types)]
#[derive(Copy, Clone, Debug, PartialEq, Eq, Structural)]
pub enum GxCompType {
    UInt8,
    Int8,
    UInt16,
    Int16,
    Float,
    Unknown(u32),
}

impl GxCompType {
    /// The variant a raw value names.
    pub open spec fn of_raw(v: u32) -> Self {
        if v == 0 {
            GxCompType::UInt8
        } else if v == 1 {
            GxCompType::Int8
        } else if v == 2 {
            GxCompType::UInt16
        } else if v == 3 {
            GxCompType::Int16
        } else if v == 4 {
            GxCompType::Float
        } else {
            GxCompType::Unknown(v)
        }
    }

    /// The raw value of a variant.
    pub open spec fn raw_of(self) -> u32 {
        match self {
            GxCompType::UInt8 => 0,
            GxCompType::Int8 => 1,
            GxCompType::UInt16 => 2,
            GxCompType::Int16 => 3,
            GxCompType::Float => 4,
            GxCompType::Unknown(x) => x,
        }
    }

    pub fn from_raw(v: u32) -> (e: Self)
        ensures
            e == Self::of_raw(v),
            e.raw_of() == v,
    {
        match v {
            0 => GxCompType::UInt8,
            1 => GxCompType::Int8,
            2 => GxCompType::UInt16,
            3 => GxCompType::Int16,
            4 => GxCompType::Float,
            other => GxCompType::Unknown(other),
        }
    }

    pub fn raw(self) -> (v: u32)
        ensures
            v == self.raw_of(),
    {
        match self {
            GxCompType::UInt8 => 0,
            GxCompType::Int8 => 1,
            GxCompType::UInt16 => 2,
            GxCompType::Int16 => 3,
            GxCompType::Float => 4,
            GxCompType::Unknown(x) => x,
        }
    }
}

} // verus!
