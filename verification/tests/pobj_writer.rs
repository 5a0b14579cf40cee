use hsdraw::common::{DObj, JObj, PObj, SObj};
use hsdraw::dat::{Dat, RootNode};
use hsdraw::gx::{GxAttribName, GxAttribType, GxPrimitiveType, PObjFlag};
use hsdraw::gx_dl::{read_display_list, GxAttribute, GxRawDisplayList, GxRawVertex};
use hsdraw::hsd_struct::{HsdStruct, StructPool};
use hsdraw::pobj_writer::MeshBuilder;

fn f(x: f32) -> u32 {
    x.to_bits()
}

fn add_pos(mb: &mut MeshBuilder, x: f32, y: f32, z: f32) {
    mb.add_position(f(x), f(y), f(z));
}

/// scene_data → JOBJDesc array → JOBJDesc → JObj → DObj → `pobj`.
fn dat_with_pobj(mut pool: StructPool, pobj: PObj) -> Dat {
    let dobj = DObj::allocate_default(&mut pool);
    dobj.set_pobj(&mut pool, Some(pobj));
    let jobj = JObj::allocate_default(&mut pool);
    jobj.set_dobj(&mut pool, Some(dobj)).expect("set_dobj");
    let desc = HsdStruct::with_capacity(0x10).into_ref(&mut pool);
    pool.set_reference(desc, 0, Some(jobj.0));
    let arr = HsdStruct::with_capacity(0x08).into_ref(&mut pool);
    pool.set_reference(arr, 0, Some(desc));
    let sobj = HsdStruct::with_capacity(0x10).into_ref(&mut pool);
    pool.set_reference(sobj, 0, Some(arr));
    Dat {
        version: [0; 4],
        roots: vec![RootNode { name: "scene_data".into(), data: sobj }],
        references: vec![],
        struct_order: vec![],
        pool,
    }
}

fn round_trip(dat: Dat) -> Dat {
    let bytes = dat.write().expect("dat.write");
    Dat::parse(&bytes).expect("Dat::parse")
}

fn first_pobj(dat: &Dat) -> PObj {
    let scene = dat.scene_data().expect("scene_data root");
    let sobj = SObj(scene.data);
    let descs = sobj.jobj_descs(&dat.pool);
    assert_eq!(descs.len(), 1);
    let root = descs[0].root_joint(&dat.pool).expect("root joint");
    let dobj = root.dobj(&dat.pool).expect("flags allow DObj").expect("DObj attached");
    dobj.pobj(&dat.pool).expect("POBJ attached")
}

fn read_first(dat: &Dat) -> GxRawDisplayList {
    read_display_list(&dat.pool, &first_pobj(dat)).expect("DL reads")
}

fn has_attribute(dl: &GxRawDisplayList, name: GxAttribName) -> bool {
    dl.attributes.iter().any(|a| a.name == name && a.kind != GxAttribType::GX_NONE)
}

/// The `f32` components of attribute `name` for `v`, read from its buffer.
fn floats(dat: &Dat, dl: &GxRawDisplayList, v: &GxRawVertex, name: GxAttribName, n: usize) -> Vec<f32> {
    let (i, a): (usize, &GxAttribute) =
        dl.attributes.iter().enumerate().find(|(_, a)| a.name == name).expect("attribute");
    let buf = dat.pool.get(a.buffer.expect("buffer")).data();
    let base = a.stride as usize * v.values[i] as usize;
    (0..n)
        .map(|k| {
            let p = base + 4 * k;
            f32::from_be_bytes([buf[p], buf[p + 1], buf[p + 2], buf[p + 3]])
        })
        .collect()
}

fn decoded_tri_count(dl: &GxRawDisplayList) -> usize {
    dl.primitives
        .iter()
        .map(|pg| match pg.primitive_type {
            GxPrimitiveType::TriangleStrip => pg.vertices.len().saturating_sub(2),
            GxPrimitiveType::Triangles => pg.vertices.len() / 3,
            _ => 0,
        })
        .sum()
}

fn tri_mb() -> MeshBuilder {
    let mut mb = MeshBuilder::new();
    add_pos(&mut mb, 0.0, 0.0, 0.0);
    add_pos(&mut mb, 1.0, 0.0, 0.0);
    add_pos(&mut mb, 0.0, 1.0, 0.0);
    mb
}

fn quad_mb() -> MeshBuilder {
    let mut mb = tri_mb();
    add_pos(&mut mb, 1.0, 1.0, 0.0);
    mb.add_triangle(0, 1, 2);
    mb.add_triangle(1, 3, 2);
    mb
}

fn build_ribbon_mb() -> MeshBuilder {
    let mut mb = MeshBuilder::new();
    let segs: usize = 48;
    let (inner_r, outer_r) = (5.0f32, 6.0f32);
    for s in 0..segs {
        let theta = (s as f32) / (segs as f32) * (std::f32::consts::TAU / 2.0);
        let (st, ct) = theta.sin_cos();
        add_pos(&mut mb, outer_r * ct, outer_r * st, 0.0);
        add_pos(&mut mb, inner_r * ct, inner_r * st, 0.0);
    }
    let n = (segs * 2) as u32;
    for i in 0..(segs - 1) as u32 {
        let (a, b, c, d) = (2 * i, 2 * i + 1, 2 * i + 2, 2 * i + 3);
        mb.add_triangle(a, c, b);
        mb.add_triangle(b, c, d);
    }
    mb.add_triangle(0, 1, 2);
    mb.add_triangle(n - 4, n - 2, n - 3);
    mb
}

#[test]
fn rejects_empty_positions() {
    let mut pool = StructPool::new();
    assert!(MeshBuilder::new().build(&mut pool).is_err());
}

#[test]
fn rejects_no_triangles() {
    let mut pool = StructPool::new();
    let e = tri_mb().build(&mut pool).unwrap_err();
    assert!(e.message().ends_with("MeshBuilder::build: no triangles added"));
}

#[test]
fn rejects_triangle_index_oob() {
    let mut pool = StructPool::new();
    let mut mb = tri_mb();
    mb.add_triangle(0, 1, 5);
    let e = mb.build(&mut pool).unwrap_err();
    assert!(e.message().ends_with("triangle index out of range"));
    assert_eq!(pool.len_exec(), 0, "a refused build leaves the pool alone");
}

#[test]
fn rejects_attribute_count_mismatch() {
    let mut pool = StructPool::new();
    let mut mb = tri_mb();
    mb.add_normal(f(0.0), f(0.0), f(1.0));
    mb.add_triangle(0, 1, 2);
    let e = mb.build(&mut pool).unwrap_err();
    assert!(e.message().ends_with("normal count != position count"));
}

#[test]
fn pobj_layout_size() {
    let mut pool = StructPool::new();
    let mut mb = tri_mb();
    mb.add_triangle(0, 1, 2);
    let pobj = mb.build(&mut pool).expect("build");
    assert_eq!(pool.get(pobj.0).len(), 0x18);
}

#[test]
fn single_triangle_round_trips() {
    let mut pool = StructPool::new();
    let mut mb = tri_mb();
    mb.add_triangle(0, 1, 2);
    let pobj = mb.build(&mut pool).expect("build");
    let dat = round_trip(dat_with_pobj(pool, pobj));
    let dl = read_first(&dat);

    assert!(has_attribute(&dl, GxAttribName::GX_VA_POS));
    assert!(!has_attribute(&dl, GxAttribName::GX_VA_NRM));
    assert!(!has_attribute(&dl, GxAttribName::GX_VA_CLR0));
    assert!(!has_attribute(&dl, GxAttribName::GX_VA_TEX0));
    assert_eq!(dl.attributes.last().unwrap().name, GxAttribName::GX_VA_NULL);
    let pos = dl.attributes.iter().find(|a| a.name == GxAttribName::GX_VA_POS).unwrap();
    assert_eq!(pos.kind, GxAttribType::GX_INDEX16);
    assert_eq!(pos.stride, 12);

    assert_eq!(dl.primitives.len(), 1);
    let pg = &dl.primitives[0];
    assert_eq!(pg.primitive_type, GxPrimitiveType::Triangles);
    assert_eq!(pg.vertices.len(), 3);
    let p: Vec<Vec<f32>> = pg.vertices.iter().map(|v| floats(&dat, &dl, v, GxAttribName::GX_VA_POS, 3)).collect();
    assert_eq!(p[0], [0.0, 0.0, 0.0]);
    assert_eq!(p[1], [1.0, 0.0, 0.0]);
    assert_eq!(p[2], [0.0, 1.0, 0.0]);
}

#[test]
fn single_quad_round_trips_triangles_only() {
    let mut pool = StructPool::new();
    let mut mb = quad_mb();
    mb.set_use_triangle_strips(false);
    let pobj = mb.build(&mut pool).expect("build");
    let dat = round_trip(dat_with_pobj(pool, pobj));
    let dl = read_first(&dat);
    assert_eq!(dl.primitives.len(), 1);
    let pg = &dl.primitives[0];
    assert_eq!(pg.primitive_type, GxPrimitiveType::Triangles);
    assert_eq!(pg.vertices.len(), 6);
    let p: Vec<Vec<f32>> = pg.vertices.iter().map(|v| floats(&dat, &dl, v, GxAttribName::GX_VA_POS, 3)).collect();
    assert_eq!(p[0], [0.0, 0.0, 0.0]);
    assert_eq!(p[1], [1.0, 0.0, 0.0]);
    assert_eq!(p[2], [0.0, 1.0, 0.0]);
    assert_eq!(p[3], [1.0, 0.0, 0.0]);
    assert_eq!(p[4], [1.0, 1.0, 0.0]);
    assert_eq!(p[5], [0.0, 1.0, 0.0]);
}

#[test]
fn with_normal_and_color_round_trips() {
    let mut pool = StructPool::new();
    let mut mb = tri_mb();
    for _ in 0..3 {
        mb.add_normal(f(0.0), f(0.0), f(1.0));
        mb.add_color(0xFF, 0x00, 0x00, 0xFF);
    }
    mb.add_triangle(0, 1, 2);
    let pobj = mb.build(&mut pool).expect("build");
    let dat = round_trip(dat_with_pobj(pool, pobj));
    let dl = read_first(&dat);
    assert!(has_attribute(&dl, GxAttribName::GX_VA_POS));
    assert!(has_attribute(&dl, GxAttribName::GX_VA_NRM));
    assert!(has_attribute(&dl, GxAttribName::GX_VA_CLR0));
    let (ci, clr) = dl.attributes.iter().enumerate().find(|(_, a)| a.name == GxAttribName::GX_VA_CLR0).unwrap();
    assert_eq!(clr.comp_type, 5);
    let v = &dl.primitives[0].vertices;
    assert_eq!(v.len(), 3);
    for vert in v {
        assert_eq!(floats(&dat, &dl, vert, GxAttribName::GX_VA_NRM, 3), [0.0, 0.0, 1.0]);
        let buf = dat.pool.get(clr.buffer.unwrap()).data();
        let at = 4 * vert.values[ci] as usize;
        assert_eq!(buf[at..at + 4], [0xFF, 0x00, 0x00, 0xFF]);
    }
}

#[test]
fn with_uv_round_trips() {
    let mut pool = StructPool::new();
    let mut mb = tri_mb();
    mb.add_uv(f(0.0), f(0.0));
    mb.add_uv(f(1.0), f(0.0));
    mb.add_uv(f(0.0), f(1.0));
    mb.add_triangle(0, 1, 2);
    let pobj = mb.build(&mut pool).expect("build");
    let dat = round_trip(dat_with_pobj(pool, pobj));
    let dl = read_first(&dat);
    assert!(has_attribute(&dl, GxAttribName::GX_VA_TEX0));
    let v = &dl.primitives[0].vertices;
    assert_eq!(v.len(), 3);
    assert_eq!(floats(&dat, &dl, &v[0], GxAttribName::GX_VA_TEX0, 2), [0.0, 0.0]);
    assert_eq!(floats(&dat, &dl, &v[1], GxAttribName::GX_VA_TEX0, 2), [1.0, 0.0]);
    assert_eq!(floats(&dat, &dl, &v[2], GxAttribName::GX_VA_TEX0, 2), [0.0, 1.0]);
}

#[test]
fn ribbon_round_trips() {
    let mut pool = StructPool::new();
    let mut mb = build_ribbon_mb();
    assert_eq!(mb.vertex_count(), 96);
    assert_eq!(mb.triangle_count(), 96);
    mb.set_use_triangle_strips(false);
    let pobj = mb.build(&mut pool).expect("build");
    let dat = round_trip(dat_with_pobj(pool, pobj));
    let dl = read_first(&dat);
    assert_eq!(dl.primitives.len(), 1);
    let pg = &dl.primitives[0];
    assert_eq!(pg.primitive_type, GxPrimitiveType::Triangles);
    assert_eq!(pg.vertices.len(), 96 * 3);
    let p0 = floats(&dat, &dl, &pg.vertices[0], GxAttribName::GX_VA_POS, 3);
    assert!((p0[0] - 6.0).abs() < 1e-4);
    assert!(p0[1].abs() < 1e-4);
}

#[test]
fn single_tri_stays_in_triangles_with_strips_on() {
    let mut pool = StructPool::new();
    let mut mb = tri_mb();
    mb.add_triangle(0, 1, 2);
    let pobj = mb.build(&mut pool).expect("build");
    let dat = round_trip(dat_with_pobj(pool, pobj));
    let dl = read_first(&dat);
    assert_eq!(dl.primitives.len(), 1);
    assert_eq!(dl.primitives[0].primitive_type, GxPrimitiveType::Triangles);
    assert_eq!(dl.primitives[0].vertices.len(), 3);
}

#[test]
fn single_quad_with_strips_round_trips() {
    let mut pool = StructPool::new();
    let pobj = quad_mb().build(&mut pool).expect("build");
    let dat = round_trip(dat_with_pobj(pool, pobj));
    let dl = read_first(&dat);
    assert_eq!(dl.primitives.len(), 1);
    let pg = &dl.primitives[0];
    assert_eq!(pg.primitive_type, GxPrimitiveType::TriangleStrip);
    assert_eq!(pg.vertices.len(), 4);
    assert_eq!(decoded_tri_count(&dl), 2);
    let mut idx: Vec<u16> = pg.vertices.iter().map(|v| v.values[0]).collect();
    idx.sort();
    idx.dedup();
    assert_eq!(idx.len(), 4, "strip vertex set should be 4 unique positions");
}

#[test]
fn ribbon_with_strips_round_trips() {
    let mut pool = StructPool::new();
    let pobj = build_ribbon_mb().build(&mut pool).expect("build");
    let dat = round_trip(dat_with_pobj(pool, pobj));
    let dl = read_first(&dat);
    assert_eq!(decoded_tri_count(&dl), 96);
    assert!(dl.primitives.iter().any(|pg| pg.primitive_type == GxPrimitiveType::TriangleStrip));
}

#[test]
fn strips_shrink_dl_byte_size_for_ribbon() {
    let mut pool = StructPool::new();
    let mut mb_off = build_ribbon_mb();
    mb_off.set_use_triangle_strips(false);
    let pobj_off = mb_off.build(&mut pool).expect("build off");
    let pobj_on = build_ribbon_mb().build(&mut pool).expect("build on");
    let size_off = pobj_off.display_list_size(&pool).unwrap();
    let size_on = pobj_on.display_list_size(&pool).unwrap();
    assert!(size_on < size_off, "{} vs {}", size_on, size_off);
}

#[test]
fn envelope_index_count_mismatch_rejected() {
    let mut pool = StructPool::new();
    let j = JObj::allocate_default(&mut pool);
    let mut mb = tri_mb();
    mb.add_triangle(0, 1, 2);
    mb.add_envelope(vec![(j, f(1.0))]);
    mb.add_envelope_index(0);
    assert!(mb.build(&mut pool).is_err());
}

#[test]
fn envelope_indices_without_envelopes_rejected() {
    let mut pool = StructPool::new();
    let mut mb = tri_mb();
    mb.add_triangle(0, 1, 2);
    for _ in 0..3 {
        mb.add_envelope_index(0);
    }
    let e = mb.build(&mut pool).unwrap_err();
    assert!(e.message().ends_with("envelope_indices added without any envelopes"));
}

#[test]
fn envelope_index_out_of_range_rejected() {
    let mut pool = StructPool::new();
    let j = JObj::allocate_default(&mut pool);
    let mut mb = tri_mb();
    mb.add_triangle(0, 1, 2);
    mb.add_envelope(vec![(j, f(1.0))]);
    mb.add_envelope_index(0);
    mb.add_envelope_index(0);
    mb.add_envelope_index(1);
    let e = mb.build(&mut pool).unwrap_err();
    assert!(e.message().ends_with("envelope index out of range"));
}

#[test]
fn envelope_with_triangle_strips() {
    let mut pool = StructPool::new();
    let j = JObj::allocate_default(&mut pool);
    let mut mb = quad_mb();
    assert_eq!(mb.add_envelope(vec![(j, f(1.0))]), 0);
    for _ in 0..4 {
        mb.add_envelope_index(0);
    }
    let pobj = mb.build(&mut pool).expect("build");
    let flags = pobj.flags(&pool).unwrap();
    assert!(flags.contains(PObjFlag(PObjFlag::ENVELOPE)));
    let dat = round_trip(dat_with_pobj(pool, pobj));
    let dl = read_first(&dat);
    assert_eq!(dl.attributes[0].name, GxAttribName::GX_VA_PNMTXIDX);
    assert_eq!(dl.attributes[0].kind, GxAttribType::GX_DIRECT);
    let pg = &dl.primitives[0];
    assert_eq!(pg.primitive_type, GxPrimitiveType::TriangleStrip);
    assert_eq!(pg.vertices.len(), 4);
    for v in &pg.vertices {
        assert_eq!(v.values[0], 0);
    }
}

#[test]
fn envelope_matrix_slot_is_three_times_the_index() {
    let mut pool = StructPool::new();
    let j0 = JObj::allocate_default(&mut pool);
    let j1 = JObj::allocate_default(&mut pool);
    let mut mb = tri_mb();
    mb.add_triangle(0, 1, 2);
    mb.set_use_triangle_strips(false);
    assert_eq!(mb.add_envelope(vec![(j0, f(1.0))]), 0);
    assert_eq!(mb.add_envelope(vec![(j0, f(0.5)), (j1, f(0.5))]), 1);
    assert_eq!(mb.envelope_count(), 2);
    mb.add_envelope_index(1);
    mb.add_envelope_index(0);
    mb.add_envelope_index(1);
    let pobj = mb.build(&mut pool).expect("build");
    let dl = read_display_list(&pool, &pobj).expect("read");
    let slots: Vec<u16> = dl.primitives[0].vertices.iter().map(|v| v.values[0]).collect();
    assert_eq!(slots, [3, 0, 3]);
    let arr = pool.get(pobj.0).get_reference(0x14).expect("envelope array");
    let env1 = pool.get(arr).get_reference(4).expect("second envelope");
    assert_eq!(pool.get(env1).len(), 3 * 8);
    assert_eq!(pool.get(env1).get_reference(8), Some(j1.0));
    assert_eq!(pool.get(env1).get_u32(12).unwrap(), f(0.5));
}

#[test]
fn empty_envelope_is_refused_and_pool_untouched() {
    let mut pool = StructPool::new();
    let mut mb = tri_mb();
    mb.add_triangle(0, 1, 2);
    mb.add_envelope(vec![]);
    for _ in 0..3 {
        mb.add_envelope_index(0);
    }
    let e = mb.build(&mut pool).unwrap_err();
    assert!(e.message().ends_with("envelope must have at least one entry"));
    assert_eq!(pool.len_exec(), 0);
}

#[test]
fn deprecated_set_cull_back_does_not_write_pobj_flags() {
    let mut pool = StructPool::new();
    let mut mb = tri_mb();
    mb.add_triangle(0, 1, 2);
    mb.set_cull_back(true);
    mb.set_cull_front(true);
    let pobj = mb.build(&mut pool).expect("build");
    let bits = pobj.flags(&pool).unwrap().bits();
    assert_eq!(bits & 0x4000, 0, "set_cull_back must not set POBJ.flags bit 0x4000");
    assert_eq!(bits & 0x8000, 0, "set_cull_front must not set POBJ.flags bit 0x8000");
}

#[test]
fn envelope_round_trips() {
    let mut pool = StructPool::new();
    let bone_a = JObj::allocate_default(&mut pool);
    bone_a.set_tx(&mut pool, f(10.0)).unwrap();
    let bone_b = JObj::allocate_default(&mut pool);
    bone_b.set_tx(&mut pool, f(20.0)).unwrap();

    let mut mb = quad_mb();
    let env0 = mb.add_envelope(vec![(bone_a, f(1.0))]);
    let env1 = mb.add_envelope(vec![(bone_a, f(0.5)), (bone_b, f(0.5))]);
    mb.add_envelope_index(env0);
    mb.add_envelope_index(env0);
    mb.add_envelope_index(env1);
    mb.add_envelope_index(env1);
    mb.set_use_triangle_strips(false);
    let pobj = mb.build(&mut pool).expect("build");
    assert!(pobj.flags(&pool).unwrap().intersects(PObjFlag(PObjFlag::ENVELOPE)));

    let dat = round_trip(dat_with_pobj(pool, pobj));
    let dl = read_first(&dat);
    assert_eq!(dl.attributes[0].name, GxAttribName::GX_VA_PNMTXIDX);
    assert_eq!(dl.attributes[0].kind, GxAttribType::GX_DIRECT);
    assert!(has_attribute(&dl, GxAttribName::GX_VA_POS));
    let v = &dl.primitives[0].vertices;
    assert_eq!(v.len(), 6);
    let pn: Vec<u16> = v.iter().map(|x| x.values[0]).collect();
    assert_eq!(pn, [0, 0, 3, 0, 3, 3]);

    let pobj2 = first_pobj(&dat);
    let pool = &dat.pool;
    let arr = pool.get(pobj2.0).get_reference(0x14).expect("envelope array attached");
    let env0_s = pool.get(arr).get_reference(0).expect("envelope[0]");
    let a = JObj(pool.get(env0_s).get_reference(0).expect("envelope[0] joint"));
    assert_eq!(f32::from_bits(a.tx(pool).unwrap()), 10.0);
    assert_eq!(f32::from_bits(pool.get(env0_s).get_u32(4).unwrap()), 1.0);
    let env1_s = pool.get(arr).get_reference(4).expect("envelope[1]");
    let b = JObj(pool.get(env1_s).get_reference(8).expect("envelope[1] entry[1] joint"));
    assert_eq!(f32::from_bits(b.tx(pool).unwrap()), 20.0);
    assert_eq!(f32::from_bits(pool.get(env1_s).get_u32(12).unwrap()), 0.5);
}
