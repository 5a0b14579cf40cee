use hsdraw::common::{JObj, SObj};
use hsdraw::dat::{Dat, RootNode};
use hsdraw::gx::{jobj_flag_from_name, jobj_flag_names, JObjFlag};
use hsdraw::hsd_struct::{HsdStruct, StructPool};
use hsdraw::import::{f32_bits_eq, import_scene_edits, looks_like_jobj_root, pad3, same_jobj, JointEdit, SceneEdits};

/// scene_data with a root joint and one child, plus a joint root `old_joint`
/// aliasing the child.
fn base_image() -> Vec<u8> {
    let mut pool = StructPool::new();
    let root = JObj::allocate_default(&mut pool);
    let child = JObj::allocate_default(&mut pool);
    root.set_child(&mut pool, Some(child));
    let desc = HsdStruct::with_capacity(0x10).into_ref(&mut pool);
    pool.set_reference(desc, 0, Some(root.0));
    let arr = HsdStruct::with_capacity(0x08).into_ref(&mut pool);
    pool.set_reference(arr, 0, Some(desc));
    let sobj = HsdStruct::with_capacity(0x10).into_ref(&mut pool);
    pool.set_reference(sobj, 0, Some(arr));
    let dat = Dat {
        version: [0; 4],
        roots: vec![
            RootNode { name: "scene_data".into(), data: sobj },
            RootNode { name: "old_joint".into(), data: child.0 },
        ],
        references: vec![],
        struct_order: vec![],
        pool,
    };
    dat.write().expect("write")
}

fn joint(id: &str, tx: f32, children: &[&str]) -> JointEdit {
    JointEdit {
        id: id.into(),
        flags: vec![],
        translation: vec![tx.to_bits(), 0, 0],
        rotation: vec![],
        scale: vec![1.0f32.to_bits(); 3],
        children: children.iter().map(|c| c.to_string()).collect(),
        parent: None,
    }
}

#[test]
fn import_applies_aliases_trs_and_new_joints() {
    let base = base_image();
    let edits = SceneEdits {
        joints: vec![joint("jobj_0", 0.0, &["jobj_1", "jobj_9"]), joint("jobj_1", 2.5, &[]), joint("jobj_9", 7.0, &[])],
        joint_aliases: vec![("new_joint".into(), "jobj_1".into())],
    };
    let (bytes, stats) = import_scene_edits(&base, &edits).expect("import");
    assert_eq!(stats.joints_walked, 2);
    assert_eq!(stats.new_joints, 1);
    assert_eq!(stats.aliases_added, 1);
    assert_eq!(stats.aliases_removed, 1);
    assert_eq!(stats.trs_changed, 2);
    assert_eq!(stats.hierarchy_rewired, 1);

    let back = Dat::parse(&bytes).expect("parse");
    let names: Vec<&str> = back.roots.iter().map(|r| r.name.as_str()).collect();
    assert!(names.contains(&"scene_data"));
    assert!(names.contains(&"new_joint"));
    assert!(!names.contains(&"old_joint"));

    let p = &back.pool;
    let alias = back.roots.iter().find(|r| r.name == "new_joint").unwrap();
    assert_eq!(f32::from_bits(JObj(alias.data).tx(p).unwrap()), 2.5);
    let scene = back.scene_data().unwrap();
    let root = SObj(scene.data).jobj_descs(p)[0].root_joint(p).unwrap();
    let c0 = root.child(p).expect("first child");
    assert_eq!(f32::from_bits(c0.tx(p).unwrap()), 2.5);
    let c1 = c0.next(p).expect("new joint linked as second child");
    assert_eq!(f32::from_bits(c1.tx(p).unwrap()), 7.0);
}

#[test]
fn import_rejects_unknown_alias_target() {
    let base = base_image();
    let edits = SceneEdits { joints: vec![], joint_aliases: vec![("x_joint".into(), "jobj_42".into())] };
    let err = import_scene_edits(&base, &edits).unwrap_err();
    assert_eq!(err.message(), "malformed dat at offset 0x0: alias 'x_joint' references unknown joint id 'jobj_42'");
}

#[test]
fn flag_round_trip_via_name() {
    let f = JObjFlag::from_bits_retain((1 << 18) | (1 << 19)); // OPA | XLU
    let names = jobj_flag_names(f);
    let mut bits = 0u32;
    for n in &names {
        bits |= jobj_flag_from_name(n).expect("known").bits();
    }
    assert_eq!(JObjFlag::from_bits_retain(bits), f);
}

#[test]
fn pad3_handles_short_arrays() {
    let b = |v: &[f32]| v.iter().map(|x| x.to_bits()).collect::<Vec<u32>>();
    assert_eq!(pad3(&b(&[1.0, 2.0, 3.0])), [1.0f32.to_bits(), 2.0f32.to_bits(), 3.0f32.to_bits()]);
    assert_eq!(pad3(&b(&[])), [0.0f32.to_bits(); 3]);
    assert_eq!(pad3(&b(&[5.0])), [5.0f32.to_bits(), 0, 0]);
}

#[test]
fn looks_like_jobj_root_matches_kar_names() {
    assert!(looks_like_jobj_root("MR_highway_inu_joint"));
    assert!(looks_like_jobj_root("DK_jungle_road_joint"));
    assert!(!looks_like_jobj_root("scene_data"));
    assert!(!looks_like_jobj_root("foo_animjoint"));
    assert!(!looks_like_jobj_root("foo_matanim_joint"));
}

#[test]
fn shapeanim_and_short_names_are_not_joints() {
    assert!(!looks_like_jobj_root("foo_shapeanim_joint"));
    assert!(!looks_like_jobj_root("joint"));
    assert!(looks_like_jobj_root("_joint"));
    assert!(looks_like_jobj_root("ä_joint"));
}

#[test]
fn same_jobj_is_identity() {
    assert!(same_jobj(None, &None));
    assert!(same_jobj(Some(JObj(3)), &Some(JObj(3))));
    assert!(!same_jobj(Some(JObj(3)), &Some(JObj(4))));
    assert!(!same_jobj(None, &Some(JObj(4))));
    assert!(!same_jobj(Some(JObj(4)), &None));
}

#[test]
fn float_bit_equality_follows_ieee() {
    let cases = [0.0f32, -0.0, 1.0, -1.5, f32::NAN, f32::INFINITY, f32::NEG_INFINITY, f32::MIN_POSITIVE];
    for a in cases {
        for b in cases {
            assert_eq!(f32_bits_eq(a.to_bits(), b.to_bits()), a == b, "{} vs {}", a, b);
        }
    }
}
