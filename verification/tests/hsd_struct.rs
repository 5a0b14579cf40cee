use hsdraw::hsd_struct::{collect_substructs, ptr_eq, HsdStruct, StructPool};

#[test]
fn alias_is_identity_not_content() {
    let mut pool = StructPool::new();
    let a = HsdStruct::from_bytes(vec![1, 2, 3, 4]).into_ref(&mut pool);
    let b = HsdStruct::from_bytes(vec![1, 2, 3, 4]).into_ref(&mut pool);
    assert!(!ptr_eq(&a, &b), "byte-equal but distinct allocs => not alias");
    assert!(ptr_eq(&a, &a.clone()), "same identity => alias");
}

#[test]
fn cycle_walk_terminates() {
    let mut pool = StructPool::new();
    let s = HsdStruct::from_bytes(vec![0; 4]).into_ref(&mut pool);
    pool.set_reference(s, 0, Some(s)); // self-ref
    let all = collect_substructs(&pool, s);
    assert_eq!(all.len(), 1);
}

#[test]
fn be_reads() {
    let s = HsdStruct::from_bytes(vec![0x12, 0x34, 0x56, 0x78, 0x9A, 0xBC]);
    assert_eq!(s.get_u32(0).unwrap(), 0x1234_5678);
    assert_eq!(s.get_u16(4).unwrap(), 0x9ABC);
    assert_eq!(s.get_i16(4).unwrap(), 0x9ABCu16 as i16);
    assert!(s.get_u32(4).is_err());
}

#[test]
fn walk_reaches_every_struct_once() {
    let mut pool = StructPool::new();
    let leaf = HsdStruct::from_bytes(vec![0; 4]).into_ref(&mut pool);
    let mid = HsdStruct::from_bytes(vec![0; 8]).into_ref(&mut pool);
    let root = HsdStruct::from_bytes(vec![0; 8]).into_ref(&mut pool);
    pool.set_reference(mid, 0, Some(leaf));
    pool.set_reference(root, 0, Some(mid));
    pool.set_reference(root, 4, Some(leaf));
    pool.set_reference(leaf, 0, Some(root));
    let all = collect_substructs(&pool, root);
    assert_eq!(all.len(), 3);
    assert_eq!(all[0], root);
}
