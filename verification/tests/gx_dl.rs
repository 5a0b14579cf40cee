use hsdraw::gx::{GxAttribName, GxAttribType, GxPrimitiveType};
use hsdraw::gx_dl::{read_primitives, GxAttribute};

fn attr(name: GxAttribName, kind: GxAttribType, comp_type: u32) -> GxAttribute {
    GxAttribute { name, kind, comp_count: 1, comp_type, scale: 0, stride: 0, buffer: None }
}

fn null() -> GxAttribute {
    attr(GxAttribName::GX_VA_NULL, GxAttribType::GX_NONE, 0)
}

#[test]
fn reads_groups_until_zero_opcode() {
    let attrs = [attr(GxAttribName::GX_VA_POS, GxAttribType::GX_INDEX16, 4), null()];
    let dl = [0x90, 0x00, 0x03, 0x00, 0x01, 0x00, 0x02, 0x01, 0x00, 0x00, 0x98, 0x00, 0x00];
    let groups = read_primitives(&dl, &attrs).expect("reads");
    assert_eq!(groups.len(), 1, "the zero opcode ends the list");
    assert_eq!(groups[0].primitive_type, GxPrimitiveType::Triangles);
    let idx: Vec<u16> = groups[0].vertices.iter().map(|v| v.values[0]).collect();
    assert_eq!(idx, [1, 2, 0x100]);
    assert_eq!(groups[0].vertices[0].values.len(), 2);
    assert_eq!(groups[0].vertices[0].values[1], 0);
}

#[test]
fn index8_and_direct_values() {
    let attrs = [
        attr(GxAttribName::GX_VA_PNMTXIDX, GxAttribType::GX_DIRECT, 0),
        attr(GxAttribName::GX_VA_POS, GxAttribType::GX_INDEX8, 4),
    ];
    let dl = [0x98, 0x00, 0x02, 0x06, 0x07, 0x09, 0x0A];
    let groups = read_primitives(&dl, &attrs).expect("reads");
    assert_eq!(groups[0].primitive_type, GxPrimitiveType::TriangleStrip);
    assert_eq!(groups[0].vertices[0].values, [6, 7]);
    assert_eq!(groups[0].vertices[1].values, [9, 10]);
}

#[test]
fn inline_colors_expand_to_rgba8() {
    let rgb565 = [attr(GxAttribName::GX_VA_CLR0, GxAttribType::GX_DIRECT, 0)];
    let g = read_primitives(&[0x90, 0x00, 0x01, 0xF8, 0x1F], &rgb565).expect("rgb565");
    assert_eq!(g[0].vertices[0].clr0, Some([0xFF, 0x00, 0xFF, 0xFF]));
    let rgba4 = [attr(GxAttribName::GX_VA_CLR1, GxAttribType::GX_DIRECT, 3)];
    let g = read_primitives(&[0x90, 0x00, 0x01, 0x12, 0x3F], &rgba4).expect("rgba4");
    assert_eq!(g[0].vertices[0].clr1, Some([0x11, 0x22, 0x33, 0xFF]));
    assert_eq!(g[0].vertices[0].clr0, None);
    let rgba8 = [attr(GxAttribName::GX_VA_CLR0, GxAttribType::GX_DIRECT, 5)];
    let g = read_primitives(&[0x90, 0x00, 0x01, 1, 2, 3, 4], &rgba8).expect("rgba8");
    assert_eq!(g[0].vertices[0].clr0, Some([1, 2, 3, 4]));
    let rgba6 = [attr(GxAttribName::GX_VA_CLR0, GxAttribType::GX_DIRECT, 4)];
    let g = read_primitives(&[0x90, 0x00, 0x01, 0xFF, 0xFF, 0xFF], &rgba6).expect("rgba6");
    assert_eq!(g[0].vertices[0].clr0, Some([0xFF, 0xFF, 0xFF, 0xFF]));
}

#[test]
fn truncations_are_named() {
    let attrs = [attr(GxAttribName::GX_VA_POS, GxAttribType::GX_INDEX16, 4)];
    let e = read_primitives(&[0x90, 0x00], &attrs).unwrap_err();
    assert!(e.message().ends_with("DL: truncated vert count"), "{}", e.message());
    let e = read_primitives(&[0x90, 0x00, 0x02, 0x00, 0x01, 0x00], &attrs).unwrap_err();
    assert!(e.message().ends_with("DL: truncated index16"), "{}", e.message());
    let bad = [attr(GxAttribName::GX_VA_CLR0, GxAttribType::GX_DIRECT, 9)];
    let e = read_primitives(&[0x90, 0x00, 0x01, 0x00], &bad).unwrap_err();
    assert!(e.message().ends_with("DL: unknown direct color comp_type"), "{}", e.message());
}

#[test]
fn empty_buffer_reads_no_groups() {
    let attrs = [null()];
    assert!(read_primitives(&[], &attrs).unwrap().is_empty());
    assert!(read_primitives(&[0, 0x90, 0, 1], &attrs).unwrap().is_empty());
}
