use hsdraw::common::{DObj, Image, JObj, MObj, Material, PeDesc, SObj};
use hsdraw::dat::{Dat, RootNode};
use hsdraw::gx::{GxTexFmt, MaterialRenderMode};
use hsdraw::hsd_struct::{HsdStruct, StructPool};

/// scene_data → JOBJDesc array → JOBJDesc → JObj → DObj → `mobj`.
fn dat_with_mobj(mut pool: StructPool, mobj: MObj) -> Dat {
    let dobj = DObj::allocate_default(&mut pool);
    dobj.set_mobj(&mut pool, Some(mobj));
    let jobj = JObj::allocate_default(&mut pool);
    jobj.set_dobj(&mut pool, Some(dobj)).expect("set_dobj");
    let desc = HsdStruct::with_capacity(0x10).into_ref(&mut pool);
    pool.set_reference(desc, 0, Some(jobj.0));
    let arr = HsdStruct::with_capacity(0x08).into_ref(&mut pool);
    pool.set_reference(arr, 0, Some(desc));
    let sobj = HsdStruct::with_capacity(0x10).into_ref(&mut pool);
    pool.set_reference(sobj, 0, Some(arr));
    Dat {
        version: [0; 4],
        roots: vec![RootNode { name: "scene_data".into(), data: sobj }],
        references: vec![],
        struct_order: vec![],
        pool,
    }
}

fn extract_first_mobj(dat: &Dat) -> MObj {
    let scene = dat.scene_data().expect("scene_data root");
    let descs = SObj(scene.data).jobj_descs(&dat.pool);
    let root = descs[0].root_joint(&dat.pool).expect("root joint");
    let dobj = root.dobj(&dat.pool).expect("flags allow Dobj").expect("DObj attached");
    dobj.mobj(&dat.pool).expect("MObj attached")
}

fn round_trip(dat: Dat) -> Dat {
    Dat::parse(&dat.write().expect("write")).expect("parse")
}

fn rf(bits: u32) -> f32 {
    f32::from_bits(bits)
}

#[test]
fn mobj_default_is_0x18_bytes() {
    let mut pool = StructPool::new();
    let mobj = MObj::allocate_default(&mut pool);
    assert_eq!(pool.get(mobj.0).len(), 0x18);
    assert_eq!(mobj.render_flags(&pool).unwrap().bits(), 0);
    assert!(mobj.material(&pool).is_none());
    assert!(mobj.textures(&pool).is_none());
    assert!(mobj.pe_desc(&pool).is_none());
}

#[test]
fn material_default_is_0x14_bytes_zero() {
    let mut pool = StructPool::new();
    let m = Material::allocate_default(&mut pool);
    assert_eq!(pool.get(m.0).len(), 0x14);
    assert_eq!(m.amb_rgba(&pool).unwrap(), [0; 4]);
    assert_eq!(m.dif_rgba(&pool).unwrap(), [0; 4]);
    assert_eq!(m.spc_rgba(&pool).unwrap(), [0; 4]);
    assert_eq!(f32::from_bits(m.alpha(&pool).unwrap()), 0.0);
    assert_eq!(f32::from_bits(m.shininess(&pool).unwrap()), 0.0);
}

#[test]
fn pedesc_default_is_0xc_bytes_zero() {
    let mut pool = StructPool::new();
    let p = PeDesc::allocate_default(&mut pool);
    assert_eq!(pool.get(p.0).len(), 0xC);
    assert_eq!(p.flags(&pool).unwrap(), 0);
    assert_eq!(p.blend_mode(&pool).unwrap(), 0);
}

#[test]
fn image_default_is_0x18_bytes_zero() {
    let mut pool = StructPool::new();
    let i = Image::allocate_default(&mut pool);
    assert_eq!(pool.get(i.0).len(), 0x18);
    assert_eq!(i.width(&pool).unwrap(), 0);
    assert_eq!(i.height(&pool).unwrap(), 0);
    assert_eq!(i.format(&pool).unwrap(), GxTexFmt::I4);
    assert_eq!(i.mipmap(&pool).unwrap(), 0);
    assert!(i.image_data(&pool).is_none());
}

#[test]
fn unlit_color_preset_sets_diffuse_alpha_and_shininess() {
    let mut pool = StructPool::new();
    let mobj = MObj::allocate_unlit_color(&mut pool, 0xFF, 0x00, 0x00, 0xFF);
    let mat = mobj.material(&pool).expect("material attached");
    assert_eq!(mat.dif_rgba(&pool).unwrap(), [0xFF, 0x00, 0x00, 0xFF]);
    assert_eq!(f32::from_bits(mat.alpha(&pool).unwrap()), 1.0);
    assert_eq!(f32::from_bits(mat.shininess(&pool).unwrap()), 50.0);
}

#[test]
fn material_setters_grow_and_write() {
    let mut pool = StructPool::new();
    let m = Material::allocate_default(&mut pool);
    m.set_alpha(&mut pool, 0.5f32.to_bits()).unwrap();
    m.set_dif_rgba(&mut pool, [1, 2, 3, 4]).unwrap();
    assert_eq!(f32::from_bits(m.alpha(&pool).unwrap()), 0.5);
    assert_eq!(m.dif_rgba(&pool).unwrap(), [1, 2, 3, 4]);
}

#[test]
fn unlit_color_preset_round_trips() {
    let mut pool = StructPool::new();
    let mobj = MObj::allocate_unlit_color(&mut pool, 0xFF, 0x00, 0x00, 0xFF);
    let constant = MaterialRenderMode(MaterialRenderMode::CONSTANT);
    let diffuse = MaterialRenderMode(MaterialRenderMode::DIFFUSE);

    let flags = mobj.render_flags(&pool).unwrap();
    assert!(flags.intersects(constant));
    assert!(flags.intersects(diffuse));
    assert!(mobj.material(&pool).is_some());
    {
        let mat = mobj.material(&pool).unwrap();
        assert_eq!(mat.dif_rgba(&pool).unwrap(), [0xFF, 0x00, 0x00, 0xFF]);
        assert!((rf(mat.alpha(&pool).unwrap()) - 1.0).abs() < 1e-6);
        assert!((rf(mat.shininess(&pool).unwrap()) - 50.0).abs() < 1e-6);
    }

    let dat = round_trip(dat_with_mobj(pool, mobj));
    let mobj2 = extract_first_mobj(&dat);
    let flags2 = mobj2.render_flags(&dat.pool).unwrap();
    assert!(flags2.intersects(constant));
    assert!(flags2.intersects(diffuse));

    let mat2 = mobj2.material(&dat.pool).expect("material survives round-trip");
    assert_eq!(mat2.dif_rgba(&dat.pool).unwrap(), [0xFF, 0x00, 0x00, 0xFF]);
    assert!((rf(mat2.alpha(&dat.pool).unwrap()) - 1.0).abs() < 1e-6);
    assert!((rf(mat2.shininess(&dat.pool).unwrap()) - 50.0).abs() < 1e-6);
}

#[test]
fn explicit_setter_path_round_trips() {
    let mut pool = StructPool::new();
    let mobj = MObj::allocate_default(&mut pool);
    mobj.set_render_flags(&mut pool, MaterialRenderMode(MaterialRenderMode::DIFFUSE)).unwrap();

    let mat = Material::allocate_default(&mut pool);
    mat.set_amb_rgba(&mut pool, [0x10, 0x10, 0x10, 0xFF]).unwrap();
    mat.set_dif_rgba(&mut pool, [0x80, 0xC0, 0x00, 0xFF]).unwrap();
    mat.set_spc_rgba(&mut pool, [0xFF, 0xFF, 0xFF, 0xFF]).unwrap();
    mat.set_alpha(&mut pool, 0.75f32.to_bits()).unwrap();
    mat.set_shininess(&mut pool, 8.5f32.to_bits()).unwrap();
    mobj.set_material(&mut pool, Some(mat));

    let pe = PeDesc::allocate_default(&mut pool);
    pe.set_blend_mode(&mut pool, 1).unwrap();
    pe.set_src_factor(&mut pool, 4).unwrap();
    pe.set_dst_factor(&mut pool, 5).unwrap();
    pe.set_alpha_ref0(&mut pool, 0x40).unwrap();
    mobj.set_pe_desc(&mut pool, Some(pe));

    let dat = round_trip(dat_with_mobj(pool, mobj));
    let mobj2 = extract_first_mobj(&dat);
    let p = &dat.pool;

    let mat2 = mobj2.material(p).unwrap();
    assert_eq!(mat2.amb_rgba(p).unwrap(), [0x10, 0x10, 0x10, 0xFF]);
    assert_eq!(mat2.dif_rgba(p).unwrap(), [0x80, 0xC0, 0x00, 0xFF]);
    assert_eq!(mat2.spc_rgba(p).unwrap(), [0xFF, 0xFF, 0xFF, 0xFF]);
    assert!((rf(mat2.alpha(p).unwrap()) - 0.75).abs() < 1e-6);
    assert!((rf(mat2.shininess(p).unwrap()) - 8.5).abs() < 1e-6);

    let pe2 = mobj2.pe_desc(p).expect("pe survives round-trip");
    assert_eq!(pe2.blend_mode(p).unwrap(), 1);
    assert_eq!(pe2.src_factor(p).unwrap(), 4);
    assert_eq!(pe2.dst_factor(p).unwrap(), 5);
    assert_eq!(pe2.alpha_ref0(p).unwrap(), 0x40);
}
