use hsdraw::export::{
    alpha_op_name, color_op_name, cull_name, primitive_runs, primitive_type_name, sha1_short_id,
};
use hsdraw::gx::{AlphaMap, ColorMap, GxPrimitiveType, PObjFlag};

#[test]
fn primitive_type_strings() {
    assert_eq!(primitive_type_name(GxPrimitiveType::Triangles), "Triangles");
    assert_eq!(primitive_type_name(GxPrimitiveType::TriangleStrip), "TriangleStrip");
}

#[test]
fn color_op_strings_match_csx() {
    assert_eq!(color_op_name(ColorMap::MODULATE), "MODULATE");
    assert_eq!(color_op_name(ColorMap::BLEND), "BLEND");
}

#[test]
fn unknown_names_carry_their_value() {
    assert_eq!(primitive_type_name(GxPrimitiveType::Unknown(0x9C)), "Unknown_0x9C");
    assert_eq!(primitive_type_name(GxPrimitiveType::Unknown(0x05)), "Unknown_0x05");
    assert_eq!(color_op_name(ColorMap::Unknown(12)), "Unknown_12");
    assert_eq!(alpha_op_name(AlphaMap::Unknown(1234567)), "Unknown_1234567");
    assert_eq!(alpha_op_name(AlphaMap::SUB), "SUB");
    assert_eq!(alpha_op_name(AlphaMap::ALPHA_MASK), "ALPHA_MASK");
}

#[test]
fn cull_names_follow_the_two_bits() {
    assert_eq!(cull_name(PObjFlag(0)), "NONE");
    assert_eq!(cull_name(PObjFlag(PObjFlag::CULLBACK)), "BACK");
    assert_eq!(cull_name(PObjFlag(PObjFlag::CULLFRONT)), "FRONT");
    assert_eq!(cull_name(PObjFlag(PObjFlag::CULLBACK | PObjFlag::CULLFRONT | PObjFlag::ENVELOPE)), "BOTH");
}

#[test]
fn primitive_runs_are_consecutive() {
    let prims = primitive_runs(&[
        (GxPrimitiveType::TriangleStrip, 4),
        (GxPrimitiveType::Triangles, 3),
        (GxPrimitiveType::Quads, 0),
        (GxPrimitiveType::Lines, 2),
    ]);
    assert_eq!(prims.len(), 4);
    assert_eq!(prims[0].primitive_type, "TriangleStrip");
    assert_eq!(prims[0].indices, vec![0, 1, 2, 3]);
    assert_eq!(prims[1].primitive_type, "Triangles");
    assert_eq!(prims[1].indices, vec![4, 5, 6]);
    assert!(prims[2].indices.is_empty());
    assert_eq!(prims[3].indices, vec![7, 8]);
}

#[test]
fn sha1_short_id_is_first_six_digest_bytes_in_hex() {
    // SHA-1("") = da39a3ee5e6b4b0d3255bfef95601890afd80709
    assert_eq!(sha1_short_id(b""), "DA39A3EE5E6B");
    // SHA-1("abc") = a9993e364706816aba3e25717850c26c9cd0d89d
    assert_eq!(sha1_short_id(b"abc"), "A9993E364706");
}
