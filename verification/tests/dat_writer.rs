use hsdraw::dat::{Dat, RootNode};
use hsdraw::hsd_struct::{HsdStruct, StructPool};

fn put_u32(buf: &mut [u8], at: usize, v: u32) {
    buf[at..at + 4].copy_from_slice(&v.to_be_bytes());
}

/// Header + one 16-byte struct + one root named `scene_data`.
fn minimal_dat() -> Vec<u8> {
    let mut buf = vec![0u8; 0x48];
    put_u32(&mut buf, 0x00, 0x48);
    put_u32(&mut buf, 0x04, 0x10);
    put_u32(&mut buf, 0x08, 0x00);
    put_u32(&mut buf, 0x0C, 0x01);
    put_u32(&mut buf, 0x10, 0x00);
    put_u32(&mut buf, 0x30, 0x00);
    put_u32(&mut buf, 0x34, 0x00);
    let name = b"scene_data\0";
    buf[0x38..0x38 + name.len()].copy_from_slice(name);
    buf
}

#[test]
fn parses_minimal_dat() {
    let bytes = minimal_dat();
    let dat = Dat::parse(&bytes).expect("parse");
    assert_eq!(dat.roots.len(), 1);
    assert_eq!(dat.roots[0].name, "scene_data");
    assert_eq!(dat.pool.get(dat.roots[0].data).len(), 0x10);
}

#[test]
fn writer_round_trips_minimal_dat() {
    let bytes = minimal_dat();
    let dat = Dat::parse(&bytes).expect("parse");
    let written = dat.write().expect("write");
    let reparsed = Dat::parse(&written).expect("reparse");
    assert_eq!(reparsed.roots.len(), 1);
    assert_eq!(reparsed.roots[0].name, "scene_data");
}

#[test]
fn writer_dedups_byte_equal_buffers() {
    let buf_payload = vec![0xABu8; 0x80];
    let mut pool = StructPool::new();
    let parent = HsdStruct::from_bytes(vec![0u8; 16]).into_ref(&mut pool);
    let mut a = HsdStruct::from_bytes(buf_payload.clone());
    a.set_is_buffer_aligned(true);
    let buf_a = a.into_ref(&mut pool);
    let mut b = HsdStruct::from_bytes(buf_payload.clone());
    b.set_is_buffer_aligned(true);
    let buf_b = b.into_ref(&mut pool);
    pool.set_reference(parent, 0, Some(buf_a));
    pool.set_reference(parent, 8, Some(buf_b));

    let dat = Dat {
        version: [0; 4],
        roots: vec![RootNode { name: "root".into(), data: parent }],
        references: vec![],
        struct_order: vec![parent, buf_a, buf_b],
        pool,
    };
    let written = dat.write().expect("write");

    let reparsed = Dat::parse(&written).expect("reparse");
    let parent = reparsed.roots[0].data;
    let r0 = reparsed.pool.get(parent).get_reference(0).expect("ref0");
    let r8 = reparsed.pool.get(parent).get_reference(8).expect("ref8");
    assert_eq!(r0, r8, "byte-equal buffers should dedup to a single struct");
}

#[test]
fn parse_refuses_short_and_overflowing_headers() {
    let e = Dat::parse(&[0u8; 0x10]).unwrap_err();
    assert!(e.message().starts_with("malformed dat at offset 0x0: "), "{}", e.message());
    let mut bytes = minimal_dat();
    put_u32(&mut bytes, 0x04, 0xFFFF_FFF0);
    let e = Dat::parse(&bytes).unwrap_err();
    assert!(e.message().starts_with("malformed dat at offset 0x4: "), "{}", e.message());
}

#[test]
fn written_header_reports_file_size_and_counts() {
    let dat = Dat::parse(&minimal_dat()).expect("parse");
    let w = dat.write().expect("write");
    let be = |i: usize| u32::from_be_bytes([w[i], w[i + 1], w[i + 2], w[i + 3]]);
    assert_eq!(be(0) as usize, w.len());
    assert_eq!(be(0x0C), 1);
    assert_eq!(be(0x10), 0);
}

#[test]
fn write_then_parse_keeps_root_aliasing() {
    let mut pool = StructPool::new();
    let shared = HsdStruct::from_bytes(vec![7u8; 16]).into_ref(&mut pool);
    let other = HsdStruct::from_bytes(vec![9u8; 16]).into_ref(&mut pool);
    let dat = Dat {
        version: [0; 4],
        roots: vec![
            RootNode { name: "a_joint".into(), data: shared },
            RootNode { name: "b".into(), data: other },
            RootNode { name: "c_joint".into(), data: shared },
        ],
        references: vec![],
        struct_order: vec![shared, other],
        pool,
    };
    let back = Dat::parse(&dat.write().expect("write")).expect("parse");
    assert_eq!(back.roots.len(), 3);
    assert_eq!(back.roots[0].data, back.roots[2].data);
    assert_ne!(back.roots[0].data, back.roots[1].data);
}

#[test]
fn writer_keeps_buffers_with_different_bytes_apart() {
    let mut pool = StructPool::new();
    let parent = HsdStruct::from_bytes(vec![0u8; 16]).into_ref(&mut pool);
    let mut a = HsdStruct::from_bytes(vec![0xABu8; 0x80]);
    a.set_is_buffer_aligned(true);
    let buf_a = a.into_ref(&mut pool);
    let mut b = HsdStruct::from_bytes(vec![0xACu8; 0x80]);
    b.set_is_buffer_aligned(true);
    let buf_b = b.into_ref(&mut pool);
    pool.set_reference(parent, 0, Some(buf_a));
    pool.set_reference(parent, 8, Some(buf_b));
    let dat = Dat {
        version: [0; 4],
        roots: vec![RootNode { name: "root".into(), data: parent }],
        references: vec![],
        struct_order: vec![parent, buf_a, buf_b],
        pool,
    };
    let back = Dat::parse(&dat.write().expect("write")).expect("parse");
    let p = back.roots[0].data;
    let r0 = back.pool.get(p).get_reference(0).expect("ref0");
    let r8 = back.pool.get(p).get_reference(8).expect("ref8");
    assert_ne!(r0, r8);
}
