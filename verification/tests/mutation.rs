use hsdraw::common::{JObj, SObj};
use hsdraw::dat::{Dat, RootNode};
use hsdraw::hsd_struct::{ptr_eq, HsdStruct, StructPool};

fn rf(bits: u32) -> f32 {
    f32::from_bits(bits)
}

/// A scene_data root whose single model is a three-joint tree
/// (root → child0, child0.next = sibling), tagged tx = 1, 2, 3.
fn build_synthetic_tree() -> Dat {
    let mut pool = StructPool::new();
    let root = JObj::allocate_default(&mut pool);
    let child0 = JObj::allocate_default(&mut pool);
    let sibling = JObj::allocate_default(&mut pool);
    child0.set_next(&mut pool, Some(sibling));
    root.set_child(&mut pool, Some(child0));
    root.set_tx(&mut pool, 1.0f32.to_bits()).unwrap();
    child0.set_tx(&mut pool, 2.0f32.to_bits()).unwrap();
    sibling.set_tx(&mut pool, 3.0f32.to_bits()).unwrap();

    let jobj_desc = HsdStruct::with_capacity(0x10).into_ref(&mut pool);
    pool.set_reference(jobj_desc, 0x00, Some(root.0));
    let descs_arr = HsdStruct::with_capacity(0x08).into_ref(&mut pool);
    pool.set_reference(descs_arr, 0x00, Some(jobj_desc));
    let sobj = HsdStruct::with_capacity(0x10).into_ref(&mut pool);
    pool.set_reference(sobj, 0x00, Some(descs_arr));
    Dat {
        version: [0; 4],
        roots: vec![RootNode { name: "scene_data".to_owned(), data: sobj }],
        references: vec![],
        struct_order: vec![],
        pool,
    }
}

#[test]
fn jobj_allocate_default_has_identity_scale() {
    let mut pool = StructPool::new();
    let j = JObj::allocate_default(&mut pool);
    assert!((rf(j.sx(&pool).unwrap()) - 1.0).abs() < 1e-6);
    assert!((rf(j.sy(&pool).unwrap()) - 1.0).abs() < 1e-6);
    assert!((rf(j.sz(&pool).unwrap()) - 1.0).abs() < 1e-6);
    assert_eq!(rf(j.tx(&pool).unwrap()), 0.0);
    assert_eq!(j.flags(&pool).unwrap().bits(), 0);
    assert!(j.child(&pool).is_none());
    assert!(j.next(&pool).is_none());
}

#[test]
fn jobj_identity_via_rc_clone() {
    let mut pool = StructPool::new();
    let a = JObj::allocate_default(&mut pool);
    let b = JObj(a.0);
    assert!(ptr_eq(&a.0, &b.0));
    let c = JObj::allocate_default(&mut pool);
    assert!(!ptr_eq(&a.0, &c.0));
}

#[test]
fn primitive_set_reference_deep_field_repoint_round_trips() {
    let mut dat = build_synthetic_tree();
    let new_root = JObj::allocate_default(&mut dat.pool);
    new_root.set_tx(&mut dat.pool, 99.0f32.to_bits()).unwrap();

    let scene = dat.scene_data().expect("scene_data root").data;
    let descs_arr = dat.pool.get(scene).get_reference(0).expect("SOBJ.JOBJDescs[] ref");
    let jobj_desc = dat.pool.get(descs_arr).get_reference(0).expect("JOBJDescs[0] ref");
    dat.pool.set_reference(jobj_desc, 0x00, Some(new_root.0));

    let written = dat.write().expect("write");
    let dat2 = Dat::parse(&written).expect("reparse");
    let scene2 = dat2.scene_data().expect("scene_data after reparse");
    let descs2 = SObj(scene2.data).jobj_descs(&dat2.pool);
    let root2 = descs2[0].root_joint(&dat2.pool).expect("root joint after repoint");
    assert!((rf(root2.tx(&dat2.pool).unwrap()) - 99.0).abs() < 1e-6);
}

#[test]
fn synthetic_struct_references_enumerate() {
    let dat = build_synthetic_tree();
    let scene = dat.scene_data().expect("scene_data root present").data;
    let s = dat.pool.get(scene);

    let refs = s.references();
    assert_eq!(refs.len(), 1, "SOBJ should have exactly one reference");
    let (off, target) = refs.entry(0);
    assert_eq!(off, 0x00);

    let descs_arr = s.get_reference(0x00).expect("offset 0 ref present");
    assert!(s.get_reference(0x10).is_none());
    assert!(ptr_eq(&descs_arr, &target));

    let desc = dat.pool.get(descs_arr).get_reference(0x00).expect("descs_arr[0] present");
    let root_joint = dat.pool.get(desc).get_reference(0x00).expect("desc.RootJoint present");
    let root = JObj(root_joint);
    assert!((rf(root.tx(&dat.pool).unwrap()) - 1.0).abs() < 1e-6);
}

#[test]
fn write_then_parse_keeps_version_names_and_counts() {
    let mut dat = build_synthetic_tree();
    dat.version = [1, 2, 3, 4];
    let root = {
        let scene = dat.scene_data().unwrap().data;
        let arr = dat.pool.get(scene).get_reference(0).unwrap();
        let desc = dat.pool.get(arr).get_reference(0).unwrap();
        dat.pool.get(desc).get_reference(0).unwrap()
    };
    dat.roots.push(RootNode { name: "Bühne_joint".to_owned(), data: root });
    dat.references.push(RootNode { name: "ref_ö".to_owned(), data: root });
    let back = Dat::parse(&dat.write().expect("write")).expect("parse");
    assert_eq!(back.version, [1, 2, 3, 4]);
    assert_eq!(back.roots.len(), 2);
    assert_eq!(back.references.len(), 1);
    assert_eq!(back.roots[0].name, "scene_data");
    assert_eq!(back.roots[1].name, "Bühne_joint");
    assert_eq!(back.references[0].name, "ref_ö");
}

#[test]
fn setter_then_getter_gives_value_back_and_keeps_other_fields() {
    let mut pool = StructPool::new();
    let j = JObj::allocate_default(&mut pool);
    j.set_tx(&mut pool, 5.5f32.to_bits()).unwrap();
    assert_eq!(rf(j.tx(&pool).unwrap()), 5.5);
    assert_eq!(rf(j.sx(&pool).unwrap()), 1.0);
    assert_eq!(rf(j.ty(&pool).unwrap()), 0.0);
}

#[test]
fn write_then_parse_keeps_root_bytes_outside_pointer_slots() {
    let mut dat = build_synthetic_tree();
    let root = {
        let scene = dat.scene_data().unwrap().data;
        let arr = dat.pool.get(scene).get_reference(0).unwrap();
        let desc = dat.pool.get(arr).get_reference(0).unwrap();
        dat.pool.get(desc).get_reference(0).unwrap()
    };
    dat.roots.push(RootNode { name: "top_joint".to_owned(), data: root });
    let before = dat.pool.get(root).data().to_vec();
    let refs = dat.pool.get(root).references();
    let mut slots = Vec::new();
    for k in 0..refs.len() {
        slots.push(refs.entry(k).0 as usize);
    }
    let back = Dat::parse(&dat.write().expect("write")).expect("parse");
    let after = back.pool.get(back.roots[1].data).data().to_vec();
    for j in 0..before.len().min(after.len()) {
        if slots.iter().any(|&q| q <= j && j < q + 4) {
            continue;
        }
        assert_eq!(after[j], before[j], "byte {} differs", j);
    }
    assert!(after.len() >= 0x40);
}
