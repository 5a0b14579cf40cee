//! GX vertex attribute table and display-list bytecode.
//!
//! The attribute table is a run of 0x18-byte rows ending with a
//! `GX_VA_NULL` row; the display list is a run of primitive groups (opcode,
//! big-endian vertex count, per-vertex attribute payload) ending with a zero
//! opcode or the end of the buffer.  Reading resolves each vertex to the
//! index (or inline value) read for every attribute and any inline colors;
//! turning indices into coordinates is left to the caller.

use crate::be::{be16, be32, read_u16_at};
use crate::common::PObj;
use crate::error::{HsdError, Result};
use crate::gx::{GxAttribName, GxAttribType, GxPrimitiveType};
use crate::hsd_struct::{HsdStruct, StructPool, StructRef};
use vstd::prelude::*;

verus! {

/// One row of the vertex attribute table (0x18 bytes).  The buffer
/// reference (at row offset 0x14) holds the per-vertex data that display
/// list indices address.
#[derive(Debug, Clone, Copy)]
pub struct GxAttribute {
    pub name: GxAttribName,
    pub kind: GxAttribType,
    pub comp_count: u32,
    /// Raw value; colors read it as a color format.
    pub comp_type: u32,
    pub scale: u8,
    pub stride: u16,
    pub buffer: Option<StructRef>,
}

/// A vertex as the display list stores it: for every attribute, in table
/// order, the index or inline value read for it (0 where nothing is read
/// or the value is an inline color), and the inline colors.
pub struct RawVertex {
    pub values: Seq<u16>,
    pub clr0: Option<[u8; 4]>,
    pub clr1: Option<[u8; 4]>,
}

/// One primitive group as read.
pub struct RawGroup {
    pub primitive_type: GxPrimitiveType,
    pub vertices: Seq<RawVertex>,
}

/// Executable form of [`RawVertex`].
#[derive(Debug, Clone)]
pub struct GxRawVertex {
    pub values: Vec<u16>,
    pub clr0: Option<[u8; 4]>,
    pub clr1: Option<[u8; 4]>,
}

impl View for GxRawVertex {
    type V = RawVertex;

    open spec fn view(&self) -> RawVertex {
        RawVertex { values: self.values@, clr0: self.clr0, clr1: self.clr1 }
    }
}

/// Executable form of [`RawGroup`].
#[derive(Debug, Clone)]
pub struct GxRawGroup {
    pub primitive_type: GxPrimitiveType,
    pub vertices: Vec<GxRawVertex>,
}

impl View for GxRawGroup {
    type V = RawGroup;

    open spec fn view(&self) -> RawGroup {
        RawGroup {
            primitive_type: self.primitive_type,
            vertices: self.vertices@.map_values(|v: GxRawVertex| v@),
        }
    }
}

/// The groups' models.
pub open spec fn groups_view(gs: Seq<GxRawGroup>) -> Seq<RawGroup> {
    gs.map_values(|g: GxRawGroup| g@)
}

/// An attribute table and the groups of a POBJ's display list.
#[derive(Debug, Clone)]
pub struct GxRawDisplayList {
    pub attributes: Vec<GxAttribute>,
    pub primitives: Vec<GxRawGroup>,
}

// ---------------------------------------------------------------------
// Attribute table
// ---------------------------------------------------------------------

/// The row of `st` at byte offset `off` (which must fit).
pub open spec fn attr_row_at(st: HsdStruct, off: u32) -> GxAttribute {
    GxAttribute {
        name: GxAttribName::of_raw(be32(st.bytes(), off as int)),
        kind: GxAttribType::of_raw(be32(st.bytes(), off + 4)),
        comp_count: be32(st.bytes(), off + 8),
        comp_type: be32(st.bytes(), off + 12),
        scale: st.bytes()[off + 16],
        stride: be16(st.bytes(), off + 18),
        buffer: st.ref_at((off + 0x14) as u32),
    }
}

/// Table length as a 32-bit offset bound.
pub open spec fn table_len(st: HsdStruct) -> int {
    st.bytes().len() as u32 as int
}

/// The rows from `off` on: while a whole row fits, up to and including the
/// first `GX_VA_NULL` row.
pub open spec fn rows_from(st: HsdStruct, off: int) -> Seq<GxAttribute>
    decreases table_len(st) - off,
{
    if off < 0 || off + 0x18 > table_len(st) {
        Seq::empty()
    } else {
        let a = attr_row_at(st, off as u32);
        if a.name == GxAttribName::GX_VA_NULL {
            seq![a]
        } else {
            seq![a] + rows_from(st, off + 0x18)
        }
    }
}

/// Read the row at `off` of a table struct.
fn read_attribute_at(s: &HsdStruct, off: u32) -> (r: Result<GxAttribute>)
    requires
        s.wf(),
        off as int + 0x18 <= s.bytes().len(),
        off as int + 0x18 <= u32::MAX,
    ensures
        r == Ok::<GxAttribute, HsdError>(attr_row_at(*s, off)),
{
    let name = s.get_u32(off)?;
    let kind = s.get_u32(off + 0x04)?;
    let comp_count = s.get_u32(off + 0x08)?;
    let comp_type = s.get_u32(off + 0x0C)?;
    let scale = s.get_byte(off + 0x10)?;
    let stride = s.get_u16(off + 0x12)?;
    Ok(
        GxAttribute {
            name: GxAttribName::from_raw(name),
            kind: GxAttribType::from_raw(kind),
            comp_count,
            comp_type,
            scale,
            stride,
            buffer: s.get_reference(off + 0x14),
        },
    )
}

/// The attribute table of `pobj` (empty when it has none).
pub fn read_attributes(pool: &StructPool, pobj: &PObj) -> (r: Result<Vec<GxAttribute>>)
    requires
        pool.wf(),
        pobj.0 < pool.len(),
    ensures
        r matches Ok(v) && v@ == (match pool.at(pobj.0 as int).ref_at(0x08) {
            Some(t) => rows_from(pool.at(t as int), 0),
            None => Seq::empty(),
        }),
{
    let attr_ref = match pobj.attributes_struct(pool) {
        Some(t) => t,
        None => {
            return Ok(Vec::new());
        },
    };
    let s = pool.get(attr_ref);
    assert(s.wf());
    let len = s.len() as u32;
    let mut out: Vec<GxAttribute> = Vec::new();
    let mut off: u32 = 0;
    while len >= 0x18 && off <= len - 0x18
        invariant
            s.wf(),
            *s == pool.at(attr_ref as int),
            pool.at(pobj.0 as int).ref_at(0x08) == Some(attr_ref),
            len as int == table_len(*s),
            off as int % 0x18 == 0,
            out@ + rows_from(*s, off as int) == rows_from(*s, 0),
        decreases len - off,
    {
        let attr = read_attribute_at(s, off)?;
        let is_terminator = attr.name == GxAttribName::GX_VA_NULL;
        let ghost rest = rows_from(*s, off as int);
        out.push(attr);
        if is_terminator {
            proof {
                assert(rest == seq![attr]);
                assert(out@ =~= rows_from(*s, 0));
            }
            return Ok(out);
        }
        proof {
            assert(rest == seq![attr] + rows_from(*s, off + 0x18));
            assert(out@ + rows_from(*s, off + 0x18) =~= rows_from(*s, 0));
        }
        off = off + 0x18;
    }
    proof {
        assert(rows_from(*s, off as int) == Seq::<GxAttribute>::empty());
        assert(out@ =~= rows_from(*s, 0));
    }
    Ok(out)
}

// ---------------------------------------------------------------------
// Display-list bytecode
// ---------------------------------------------------------------------

/// What reading one attribute of a vertex yields.
pub enum ReadStep {
    /// An index into the attribute's buffer, or an inline value.
    Value(u16),
    /// An inline color.
    Color([u8; 4]),
    /// Nothing is read.
    Skip,
}

/// Truncated display list, by where it ran out.
pub const TRUNC_COUNT: &'static str = "DL: truncated vert count";
pub const TRUNC_DIRECT: &'static str = "DL: truncated direct";
pub const TRUNC_INDEX8: &'static str = "DL: truncated index8";
pub const TRUNC_INDEX16: &'static str = "DL: truncated index16";
pub const TRUNC_RGB565: &'static str = "DL: truncated dir RGB565";
pub const TRUNC_COLOR: &'static str = "DL: truncated";
pub const TRUNC_RGBA4: &'static str = "DL: truncated dir RGBA4";
pub const TRUNC_RGBA6: &'static str = "DL: truncated dir RGBA6";
pub const UNKNOWN_COLOR: &'static str = "DL: unknown direct color comp_type";

/// Expand a 5-bit channel to 8 bits.
pub open spec fn expand5(c: u16) -> u8 {
    ((c << 3u16) | (c >> 2u16)) as u8
}

/// Expand a 6-bit channel to 8 bits.
pub open spec fn expand6(c: u32) -> u8 {
    ((c << 2u32) | (c >> 4u32)) as u8
}

/// Expand a 4-bit channel to 8 bits.
pub open spec fn expand4(c: u16) -> u8 {
    ((c << 4u16) | c) as u8
}

/// An inline color of format `ct` read at `pos`: the RGBA8 color and the
/// position after it.
pub open spec fn direct_color(ct: u32, b: Seq<u8>, pos: int) -> core::result::Result<([u8; 4], int), &'static str> {
    if ct == 0 {
        if pos + 2 > b.len() {
            Err(TRUNC_RGB565)
        } else {
            let v = be16(b, pos);
            Ok(([expand5((v >> 11u16) & 0x1F), expand6(((v >> 5u16) & 0x3F) as u32), expand5(v & 0x1F), 255u8], pos + 2))
        }
    } else if ct == 1 {
        if pos + 3 > b.len() {
            Err(TRUNC_COLOR)
        } else {
            Ok(([b[pos], b[pos + 1], b[pos + 2], 255u8], pos + 3))
        }
    } else if ct == 2 || ct == 5 {
        if pos + 4 > b.len() {
            Err(TRUNC_COLOR)
        } else {
            Ok(([b[pos], b[pos + 1], b[pos + 2], b[pos + 3]], pos + 4))
        }
    } else if ct == 3 {
        if pos + 2 > b.len() {
            Err(TRUNC_RGBA4)
        } else {
            let v = be16(b, pos);
            Ok(([expand4((v >> 12u16) & 0xF), expand4((v >> 8u16) & 0xF), expand4((v >> 4u16) & 0xF), expand4(v & 0xF)], pos + 2))
        }
    } else if ct == 4 {
        if pos + 3 > b.len() {
            Err(TRUNC_RGBA6)
        } else {
            let v: u32 = ((b[pos] as u32) << 16u32) | ((b[pos + 1] as u32) << 8u32) | (b[pos + 2] as u32);
            Ok(([expand6((v >> 18u32) & 0x3F), expand6((v >> 12u32) & 0x3F), expand6((v >> 6u32) & 0x3F), expand6(v & 0x3F)], pos + 3))
        }
    } else {
        Err(UNKNOWN_COLOR)
    }
}

/// An inline RGB565 colour is the big-endian word `v` at `pos`: red is the
/// top five bits (`v >> 11`), green the middle six, blue the low five
/// (`v & 0x1F`), each widened to eight bits by repeating its top bits; alpha
/// is opaque.
pub proof fn law_direct_rgb565_channels(b: Seq<u8>, pos: int)
    requires
        0 <= pos,
        pos + 2 <= b.len(),
    ensures
        ({
            let v: u16 = ((b[pos] as u16) << 8u16) | (b[pos + 1] as u16);
            let r: u16 = v >> 11u16;
            let g: u16 = (v >> 5u16) & 0x3F;
            let bl: u16 = v & 0x1F;
            direct_color(0, b, pos) == Ok::<([u8; 4], int), &'static str>((
                [
                    ((r << 3u16) | (r >> 2u16)) as u8,
                    ((g << 2u16) | (g >> 4u16)) as u8,
                    ((bl << 3u16) | (bl >> 2u16)) as u8,
                    255u8,
                ],
                pos + 2,
            ))
        }),
{
    let hi = b[pos];
    let lo = b[pos + 1];
    let v: u16 = ((hi as u16) << 8u16) | (lo as u16);
    assert(be16(b, pos) == v) by {
        assert(((hi as u16) << 8u16) | (lo as u16) == (hi as int * 0x100 + lo as int) as u16) by (bit_vector);
    }
    let g: u16 = (v >> 5u16) & 0x3F;
    let r: u16 = v >> 11u16;
    let bl: u16 = v & 0x1F;
    assert(expand6(((v >> 5u16) & 0x3F) as u32) == ((g << 2u16) | (g >> 4u16)) as u8) by (bit_vector)
        requires
            g == (v >> 5u16) & 0x3F,
    ;
    assert(((v >> 11u16) & 0x1F) == r) by (bit_vector)
        requires
            r == v >> 11u16,
    ;
    assert(expand5(r) == ((r << 3u16) | (r >> 2u16)) as u8);
    assert(expand5(bl) == ((bl << 3u16) | (bl >> 2u16)) as u8);
    assert(direct_color(0, b, pos) == Ok::<([u8; 4], int), &'static str>((
        [
            ((r << 3u16) | (r >> 2u16)) as u8,
            ((g << 2u16) | (g >> 4u16)) as u8,
            ((bl << 3u16) | (bl >> 2u16)) as u8,
            255u8,
        ],
        pos + 2,
    )));
}

/// Reading attribute `a` of a vertex at `pos`: what it yields and the
/// position after it.
pub open spec fn attr_step(a: GxAttribute, b: Seq<u8>, pos: int) -> core::result::Result<(ReadStep, int), &'static str> {
    if a.name == GxAttribName::GX_VA_NULL {
        Ok((ReadStep::Skip, pos))
    } else {
        match a.kind {
            GxAttribType::GX_DIRECT => if a.name == GxAttribName::GX_VA_CLR0 || a.name == GxAttribName::GX_VA_CLR1 {
                match direct_color(a.comp_type, b, pos) {
                    Ok((c, p)) => Ok((ReadStep::Color(c), p)),
                    Err(e) => Err(e),
                }
            } else if pos + 1 > b.len() {
                Err(TRUNC_DIRECT)
            } else {
                Ok((ReadStep::Value(b[pos] as u16), pos + 1))
            },
            GxAttribType::GX_INDEX8 => if pos + 1 > b.len() {
                Err(TRUNC_INDEX8)
            } else {
                Ok((ReadStep::Value(b[pos] as u16), pos + 1))
            },
            GxAttribType::GX_INDEX16 => if pos + 2 > b.len() {
                Err(TRUNC_INDEX16)
            } else {
                Ok((ReadStep::Value(be16(b, pos)), pos + 2))
            },
            _ => Ok((ReadStep::Skip, pos)),
        }
    }
}

/// The vertex with one more attribute's reading recorded.
pub open spec fn apply_step(v: RawVertex, a: GxAttribute, st: ReadStep) -> RawVertex {
    match st {
        ReadStep::Value(x) => RawVertex { values: v.values.push(x), ..v },
        ReadStep::Color(c) => if a.name == GxAttribName::GX_VA_CLR0 {
            RawVertex { values: v.values.push(0), clr0: Some(c), ..v }
        } else {
            RawVertex { values: v.values.push(0), clr1: Some(c), ..v }
        },
        ReadStep::Skip => RawVertex { values: v.values.push(0), ..v },
    }
}

pub open spec fn empty_vertex() -> RawVertex {
    RawVertex { values: Seq::empty(), clr0: None, clr1: None }
}

/// One vertex read at `pos`: every attribute in table order.
pub open spec fn vertex_read(attrs: Seq<GxAttribute>, b: Seq<u8>, pos: int) -> core::result::Result<(RawVertex, int), &'static str>
    decreases attrs.len(),
{
    if attrs.len() == 0 {
        Ok((empty_vertex(), pos))
    } else {
        match vertex_read(attrs.drop_last(), b, pos) {
            Err(e) => Err(e),
            Ok((v, p)) => match attr_step(attrs.last(), b, p) {
                Err(e) => Err(e),
                Ok((st, p2)) => Ok((apply_step(v, attrs.last(), st), p2)),
            },
        }
    }
}

/// `n` vertices read one after the other from `pos`.
pub open spec fn verts_read(attrs: Seq<GxAttribute>, b: Seq<u8>, pos: int, n: nat) -> core::result::Result<(Seq<RawVertex>, int), &'static str>
    decreases n,
{
    if n == 0 {
        Ok((Seq::empty(), pos))
    } else {
        match verts_read(attrs, b, pos, (n - 1) as nat) {
            Err(e) => Err(e),
            Ok((vs, p)) => match vertex_read(attrs, b, p) {
                Err(e) => Err(e),
                Ok((v, p2)) => Ok((vs.push(v), p2)),
            },
        }
    }
}

/// The groups from `pos` on, up to a zero opcode or the end of the buffer.
pub open spec fn groups_read(attrs: Seq<GxAttribute>, b: Seq<u8>, pos: int) -> core::result::Result<Seq<RawGroup>, &'static str>
    decreases b.len() - pos,
{
    if pos < 0 || pos >= b.len() || b[pos] == 0 {
        Ok(Seq::empty())
    } else if pos + 3 > b.len() {
        Err(TRUNC_COUNT)
    } else {
        match verts_read(attrs, b, pos + 3, be16(b, pos + 1) as nat) {
            Err(e) => Err(e),
            Ok((vs, p)) => if p < pos + 3 || p > b.len() {
                Err(TRUNC_COUNT)
            } else {
                match groups_read(attrs, b, p) {
                    Err(e) => Err(e),
                    Ok(rest) => Ok(
                        seq![RawGroup { primitive_type: GxPrimitiveType::of_raw(b[pos]), vertices: vs }] + rest,
                    ),
                }
            },
        }
    }
}

proof fn lemma_attr_step_bounds(a: GxAttribute, b: Seq<u8>, pos: int)
    requires
        0 <= pos <= b.len(),
    ensures
        attr_step(a, b, pos) matches Ok((st, p)) ==> pos <= p <= b.len(),
{
}

proof fn lemma_vertex_read_bounds(attrs: Seq<GxAttribute>, b: Seq<u8>, pos: int)
    requires
        0 <= pos <= b.len(),
    ensures
        vertex_read(attrs, b, pos) matches Ok((v, p)) ==> pos <= p <= b.len() && v.values.len() == attrs.len(),
    decreases attrs.len(),
{
    if attrs.len() > 0 {
        lemma_vertex_read_bounds(attrs.drop_last(), b, pos);
        if let Ok((v, p)) = vertex_read(attrs.drop_last(), b, pos) {
            lemma_attr_step_bounds(attrs.last(), b, p);
        }
    }
}

proof fn lemma_verts_read_bounds(attrs: Seq<GxAttribute>, b: Seq<u8>, pos: int, n: nat)
    requires
        0 <= pos <= b.len(),
    ensures
        verts_read(attrs, b, pos, n) matches Ok((vs, p)) ==> pos <= p <= b.len() && vs.len() == n,
    decreases n,
{
    if n > 0 {
        lemma_verts_read_bounds(attrs, b, pos, (n - 1) as nat);
        if let Ok((vs, p)) = verts_read(attrs, b, pos, (n - 1) as nat) {
            lemma_vertex_read_bounds(attrs, b, p);
        }
    }
}

/// A big-endian byte cursor.
struct Cursor<'a> {
    data: &'a [u8],
    pos: usize,
}

impl<'a> Cursor<'a> {
    fn new(data: &'a [u8]) -> (c: Self)
        ensures
            c.data@ == data@,
            c.pos == 0,
    {
        Cursor { data, pos: 0 }
    }

    fn has_more(&self) -> (b: bool)
        ensures
            b == (self.pos < self.data@.len()),
    {
        self.pos < self.data.len()
    }

    fn try_read_u8(&mut self) -> (r: Option<u8>)
        requires
            old(self).pos <= old(self).data@.len(),
        ensures
            final(self).data == old(self).data,
            old(self).pos < old(self).data@.len() ==> r == Some(old(self).data@[old(self).pos as int])
                && final(self).pos == old(self).pos + 1,
            old(self).pos >= old(self).data@.len() ==> r is None && final(self).pos == old(self).pos,
    {
        if self.pos < self.data.len() {
            let v = self.data[self.pos];
            self.pos = self.pos + 1;
            Some(v)
        } else {
            None
        }
    }

    fn read_u8(&mut self) -> (r: Option<u8>)
        requires
            old(self).pos <= old(self).data@.len(),
        ensures
            final(self).data == old(self).data,
            old(self).pos < old(self).data@.len() ==> r == Some(old(self).data@[old(self).pos as int])
                && final(self).pos == old(self).pos + 1,
            old(self).pos >= old(self).data@.len() ==> r is None && final(self).pos == old(self).pos,
    {
        self.try_read_u8()
    }

    fn read_u16(&mut self) -> (r: Option<u16>)
        requires
            old(self).pos <= old(self).data@.len(),
        ensures
            final(self).data == old(self).data,
            old(self).pos + 2 <= old(self).data@.len() ==> r == Some(be16(old(self).data@, old(self).pos as int))
                && final(self).pos == old(self).pos + 2,
            old(self).pos + 2 > old(self).data@.len() ==> r is None && final(self).pos == old(self).pos,
    {
        if self.data.len() - self.pos < 2 {
            return None;
        }
        let v = read_u16_at(self.data, self.pos);
        self.pos = self.pos + 2;
        Some(v)
    }
}

/// Read an inline color of format `comp_type`.
fn read_direct_color(cur: &mut Cursor<'_>, comp_type: u32) -> (r: Result<[u8; 4]>)
    requires
        old(cur).pos <= old(cur).data@.len(),
    ensures
        final(cur).data == old(cur).data,
        final(cur).pos <= final(cur).data@.len(),
        match direct_color(comp_type, old(cur).data@, old(cur).pos as int) {
            Ok((c, p)) => r == Ok::<[u8; 4], HsdError>(c) && final(cur).pos == p,
            Err(e) => r == Err::<[u8; 4], HsdError>(HsdError::Malformed { offset: 0, context: e }),
        },
{
    if comp_type == 0 {
        let b = match cur.read_u16() {
            Some(v) => v,
            None => {
                return Err(HsdError::malformed(0, TRUNC_RGB565));
            },
        };
        let g = (b >> 5) & 0x3F;
        proof {
            assert(((g << 2u16) | (g >> 4u16)) as u8 == expand6(g as u32)) by (bit_vector)
                requires g == (b >> 5u16) & 0x3F;
        }
        Ok([
            (((b >> 11) & 0x1F) << 3 | ((b >> 11) & 0x1F) >> 2) as u8,
            (g << 2 | g >> 4) as u8,
            (((b) & 0x1F) << 3 | ((b) & 0x1F) >> 2) as u8,
            255,
        ])
    } else if comp_type == 1 {
        let (Some(r0), Some(r1), Some(r2)) = (cur.read_u8(), cur.read_u8(), cur.read_u8()) else {
            return Err(HsdError::malformed(0, TRUNC_COLOR));
        };
        Ok([r0, r1, r2, 255])
    } else if comp_type == 2 || comp_type == 5 {
        let (Some(r0), Some(r1), Some(r2), Some(r3)) = (cur.read_u8(), cur.read_u8(), cur.read_u8(), cur.read_u8()) else {
            return Err(HsdError::malformed(0, TRUNC_COLOR));
        };
        Ok([r0, r1, r2, r3])
    } else if comp_type == 3 {
        let b = match cur.read_u16() {
            Some(v) => v,
            None => {
                return Err(HsdError::malformed(0, TRUNC_RGBA4));
            },
        };
        Ok([
            (((b >> 12) & 0xF) << 4 | ((b >> 12) & 0xF)) as u8,
            (((b >> 8) & 0xF) << 4 | ((b >> 8) & 0xF)) as u8,
            (((b >> 4) & 0xF) << 4 | ((b >> 4) & 0xF)) as u8,
            (((b) & 0xF) << 4 | ((b) & 0xF)) as u8,
        ])
    } else if comp_type == 4 {
        let (Some(b1), Some(b2), Some(b3)) = (cur.read_u8(), cur.read_u8(), cur.read_u8()) else {
            return Err(HsdError::malformed(0, TRUNC_RGBA6));
        };
        let b: u32 = ((b1 as u32) << 16) | ((b2 as u32) << 8) | (b3 as u32);
        Ok([
            (((b >> 18) & 0x3F) << 2 | ((b >> 18) & 0x3F) >> 4) as u8,
            (((b >> 12) & 0x3F) << 2 | ((b >> 12) & 0x3F) >> 4) as u8,
            (((b >> 6) & 0x3F) << 2 | ((b >> 6) & 0x3F) >> 4) as u8,
            (((b) & 0x3F) << 2 | ((b) & 0x3F) >> 4) as u8,
        ])
    } else {
        Err(HsdError::malformed(0, UNKNOWN_COLOR))
    }
}

/// Read one vertex: the index or inline value of every attribute, in
/// table order, and the inline colors.
fn read_one_vertex(cur: &mut Cursor<'_>, attrs: &[GxAttribute]) -> (r: Result<GxRawVertex>)
    requires
        old(cur).pos <= old(cur).data@.len(),
    ensures
        final(cur).data == old(cur).data,
        final(cur).pos <= final(cur).data@.len(),
        match vertex_read(attrs@, old(cur).data@, old(cur).pos as int) {
            Ok((v, p)) => (r matches Ok(x) && x@ == v) && final(cur).pos == p,
            Err(e) => r == Err::<GxRawVertex, HsdError>(HsdError::Malformed { offset: 0, context: e }),
        },
{
    let ghost b = cur.data@;
    let ghost pos0 = cur.pos as int;
    let mut values: Vec<u16> = Vec::new();
    let mut clr0: Option<[u8; 4]> = None;
    let mut clr1: Option<[u8; 4]> = None;
    let mut i: usize = 0;
    while i < attrs.len()
        invariant
            i <= attrs@.len(),
            cur.data == old(cur).data,
            cur.data@ == b,
            b == old(cur).data@,
            pos0 == old(cur).pos,
            cur.pos <= b.len(),
            vertex_read(attrs@.take(i as int), b, pos0) == Ok::<(RawVertex, int), &'static str>(
                (RawVertex { values: values@, clr0, clr1 }, cur.pos as int),
            ),
        decreases attrs@.len() - i,
    {
        let a = attrs[i];
        let ghost p = cur.pos as int;
        let ghost v0 = RawVertex { values: values@, clr0, clr1 };
        proof {
            assert(attrs@.take(i + 1).drop_last() =~= attrs@.take(i as int));
            assert(attrs@.take(i + 1).last() == a);
        }
        if a.name == GxAttribName::GX_VA_NULL {
            values.push(0);
        } else {
            match a.kind {
                GxAttribType::GX_DIRECT => {
                    if a.name == GxAttribName::GX_VA_CLR0 || a.name == GxAttribName::GX_VA_CLR1 {
                        let c = match read_direct_color(cur, a.comp_type) {
                            Ok(c) => c,
                            Err(e) => {
                                proof {
                                    assert(attr_step(a, b, p) matches Err(msg) && e == (HsdError::Malformed { offset: 0, context: msg }));
                                    assert(vertex_read(attrs@.take(i + 1), b, pos0) is Err);
                                    lemma_vertex_read_err_extends(attrs@, b, pos0, (i + 1) as nat);
                                }
                                return Err(e);
                            },
                        };
                        if a.name == GxAttribName::GX_VA_CLR0 {
                            clr0 = Some(c);
                        } else {
                            clr1 = Some(c);
                        }
                        values.push(0);
                    } else {
                        let val = match cur.read_u8() {
                            Some(v) => v,
                            None => {
                                proof {
                                    lemma_vertex_read_err_extends(attrs@, b, pos0, (i + 1) as nat);
                                }
                                return Err(HsdError::malformed(0, TRUNC_DIRECT));
                            },
                        };
                        values.push(val as u16);
                    }
                },
                GxAttribType::GX_INDEX8 => {
                    let val = match cur.read_u8() {
                        Some(v) => v,
                        None => {
                            proof {
                                lemma_vertex_read_err_extends(attrs@, b, pos0, (i + 1) as nat);
                            }
                            return Err(HsdError::malformed(0, TRUNC_INDEX8));
                        },
                    };
                    values.push(val as u16);
                },
                GxAttribType::GX_INDEX16 => {
                    let val = match cur.read_u16() {
                        Some(v) => v,
                        None => {
                            proof {
                                lemma_vertex_read_err_extends(attrs@, b, pos0, (i + 1) as nat);
                            }
                            return Err(HsdError::malformed(0, TRUNC_INDEX16));
                        },
                    };
                    values.push(val);
                },
                _ => {
                    values.push(0);
                },
            }
        }
        proof {
            assert(vertex_read(attrs@.take(i + 1), b, pos0) == Ok::<(RawVertex, int), &'static str>(
                (RawVertex { values: values@, clr0, clr1 }, cur.pos as int),
            ));
        }
        i = i + 1;
    }
    proof {
        assert(attrs@.take(attrs@.len() as int) =~= attrs@);
    }
    Ok(GxRawVertex { values, clr0, clr1 })
}

/// Once reading a prefix of the attributes fails, reading all of them
/// fails the same way.
proof fn lemma_vertex_read_err_extends(attrs: Seq<GxAttribute>, b: Seq<u8>, pos: int, n: nat)
    requires
        n <= attrs.len(),
        vertex_read(attrs.take(n as int), b, pos) is Err,
    ensures
        vertex_read(attrs, b, pos) == vertex_read(attrs.take(n as int), b, pos),
    decreases attrs.len() - n,
{
    if n < attrs.len() {
        let t = attrs.take(n + 1 as int);
        assert(t.drop_last() =~= attrs.take(n as int));
        lemma_vertex_read_err_extends(attrs, b, pos, n + 1);
    } else {
        assert(attrs.take(n as int) =~= attrs);
    }
}

/// Once reading `n` vertices fails, reading more fails the same way.
proof fn lemma_verts_read_err_extends(attrs: Seq<GxAttribute>, b: Seq<u8>, pos: int, n: nat, m: nat)
    requires
        n <= m,
        verts_read(attrs, b, pos, n) is Err,
    ensures
        verts_read(attrs, b, pos, m) == verts_read(attrs, b, pos, n),
    decreases m - n,
{
    if n < m {
        lemma_verts_read_err_extends(attrs, b, pos, n, (m - 1) as nat);
    }
}

/// The read groups `done` followed by whatever reading the rest gives.
pub open spec fn prepend_groups(done: Seq<RawGroup>, rest: core::result::Result<Seq<RawGroup>, &'static str>) -> core::result::Result<Seq<RawGroup>, &'static str> {
    match rest {
        Ok(x) => Ok(done + x),
        Err(e) => Err(e),
    }
}

/// Read the primitive groups of a display list, up to a zero opcode or the
/// end of the buffer.
pub fn read_primitives(buffer: &[u8], attrs: &[GxAttribute]) -> (r: Result<Vec<GxRawGroup>>)
    ensures
        match groups_read(attrs@, buffer@, 0) {
            Ok(gs) => r matches Ok(v) && groups_view(v@) == gs,
            Err(e) => r == Err::<Vec<GxRawGroup>, HsdError>(HsdError::Malformed { offset: 0, context: e }),
        },
{
    let ghost b = buffer@;
    let mut out: Vec<GxRawGroup> = Vec::new();
    let mut cur = Cursor::new(buffer);
    loop
        invariant
            b == buffer@,
            cur.data@ == b,
            cur.pos <= b.len(),
            groups_read(attrs@, b, 0) == prepend_groups(groups_view(out@), groups_read(attrs@, b, cur.pos as int)),
        decreases b.len() - cur.pos,
    {
        if !cur.has_more() {
            proof {
                assert(groups_view(out@) + Seq::<RawGroup>::empty() =~= groups_view(out@));
            }
            return Ok(out);
        }
        let pos = cur.pos;
        let prim_byte = match cur.try_read_u8() {
            Some(v) => v,
            None => {
                return Ok(out);
            },
        };
        if prim_byte == 0 {
            proof {
                assert(groups_view(out@) + Seq::<RawGroup>::empty() =~= groups_view(out@));
            }
            return Ok(out);
        }
        let prim_type = GxPrimitiveType::from_raw(prim_byte);
        let count = match cur.read_u16() {
            Some(c) => c,
            None => {
                return Err(HsdError::malformed(0, TRUNC_COUNT));
            },
        };
        let mut vertices: Vec<GxRawVertex> = Vec::new();
        proof {
            assert(vertices@.map_values(|v: GxRawVertex| v@) =~= Seq::<RawVertex>::empty());
        }
        let mut k: u16 = 0;
        while k < count
            invariant
                b == buffer@,
                cur.data@ == b,
                cur.pos <= b.len(),
                k <= count,
                groups_read(attrs@, b, 0) == prepend_groups(groups_view(out@), groups_read(attrs@, b, pos as int)),
                pos < b.len(),
                b[pos as int] == prim_byte,
                prim_byte != 0,
                pos + 3 <= b.len(),
                count == be16(b, pos + 1),
                verts_read(attrs@, b, pos + 3, k as nat) == Ok::<(Seq<RawVertex>, int), &'static str>(
                    (vertices@.map_values(|v: GxRawVertex| v@), cur.pos as int),
                ),
            decreases count - k,
        {
            let v = match read_one_vertex(&mut cur, attrs) {
                Ok(v) => v,
                Err(e) => {
                    proof {
                        lemma_verts_read_err_extends(attrs@, b, pos + 3, (k + 1) as nat, count as nat);
                    }
                    return Err(e);
                },
            };
            let ghost vs0 = vertices@;
            vertices.push(v);
            proof {
                assert(vertices@.map_values(|v: GxRawVertex| v@) =~= vs0.map_values(|v: GxRawVertex| v@).push(v@));
            }
            k = k + 1;
        }
        proof {
            lemma_verts_read_bounds(attrs@, b, pos + 3, count as nat);
        }
        let ghost out0 = out@;
        let ghost g = RawGroup { primitive_type: prim_type, vertices: vertices@.map_values(|v: GxRawVertex| v@) };
        out.push(GxRawGroup { primitive_type: prim_type, vertices });
        proof {
            assert(groups_view(out@) =~= groups_view(out0) + seq![g]);
            let rest = groups_read(attrs@, b, cur.pos as int);
            assert(groups_read(attrs@, b, pos as int) == prepend_groups(seq![g], rest));
            match rest {
                Ok(x) => {
                    assert(groups_view(out0) + (seq![g] + x) =~= groups_view(out@) + x);
                },
                Err(e) => {},
            }
        }
    }
}

/// The attribute table and display-list groups of `pobj`.  A table that is
/// empty or does not end with `GX_VA_NULL`, or a missing display list,
/// yields no groups.
pub fn read_display_list(pool: &StructPool, pobj: &PObj) -> (r: Result<GxRawDisplayList>)
    requires
        pool.wf(),
        pobj.0 < pool.len(),
    ensures
        ({
            let attrs = match pool.at(pobj.0 as int).ref_at(0x08) {
                Some(t) => rows_from(pool.at(t as int), 0),
                None => Seq::empty(),
            };
            if attrs.len() == 0 || attrs.last().name != GxAttribName::GX_VA_NULL {
                r matches Ok(dl) && dl.attributes@ == attrs && dl.primitives@.len() == 0
            } else {
                match pool.at(pobj.0 as int).ref_at(0x10) {
                    None => r matches Ok(dl) && dl.attributes@ == attrs && dl.primitives@.len() == 0,
                    Some(d) => match groups_read(attrs, pool.at(d as int).bytes(), 0) {
                        Ok(gs) => r matches Ok(dl) && dl.attributes@ == attrs && groups_view(dl.primitives@) == gs,
                        Err(e) => r == Err::<GxRawDisplayList, HsdError>(HsdError::Malformed { offset: 0, context: e }),
                    },
                }
            }
        }),
{
    let attributes = read_attributes(pool, pobj)?;
    if attributes.len() == 0 || attributes[attributes.len() - 1].name != GxAttribName::GX_VA_NULL {
        return Ok(GxRawDisplayList { attributes, primitives: Vec::new() });
    }
    let buffer = match pobj.display_list_buffer(pool) {
        Some(b) => b,
        None => {
            return Ok(GxRawDisplayList { attributes, primitives: Vec::new() });
        },
    };
    let primitives = read_primitives(buffer.as_slice(), attributes.as_slice())?;
    Ok(GxRawDisplayList { attributes, primitives })
}

} // verus!
