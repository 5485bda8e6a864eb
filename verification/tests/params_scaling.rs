use body_tree::generic_mutation::{ParamHolder, RangedParam, RAW_ONE};
use body_tree::params::{Dimension, FaceCoord, FaceIndex, Rotation};
use body_tree::body::{new_cuboid, position_on_face};

#[test]
fn set_clamps_and_scaling_is_exact() {
    let mut d = Dimension::new(500_000);
    assert_eq!(d.get(), 500_000);
    // min + (max - min) * raw / RAW_ONE, all in micro-units
    assert_eq!(d.get_scaled(), 100_000 + 9_900_000 / 2);

    d.set(-5);
    assert_eq!(d.get(), 0);
    assert_eq!(d.get_scaled(), 100_000);

    d.set(2_000_000);
    assert_eq!(d.get(), RAW_ONE);
    assert_eq!(d.get_scaled(), 10_000_000);
}

#[test]
fn face_coordinates_span_both_signs() {
    let c = FaceCoord::new(0);
    assert_eq!(c.get_scaled(), -1_000_000);
    let c = FaceCoord::new(1_000_000);
    assert_eq!(c.get_scaled(), 1_000_000);
    let c = FaceCoord::new(250_000);
    assert_eq!(c.get_scaled(), -500_000);
}

#[test]
fn rotation_scales_into_half_turn() {
    let r = Rotation::new(0);
    assert_eq!(r.get_scaled(), 0);
    let r = Rotation::new(1_000_000);
    assert_eq!(r.get_scaled(), 3_141_593);
    let r = Rotation::new(500_000);
    assert_eq!(r.get_scaled(), 3_141_593 / 2);
}

#[test]
fn face_selection_is_clamped_discretely() {
    assert_eq!(FaceIndex::new(0).face(6), 0);
    assert_eq!(FaceIndex::new(500_000).face(6), 3);
    assert_eq!(FaceIndex::new(999_999).face(6), 5);
    // a raw value of exactly one still picks the last face
    assert_eq!(FaceIndex::new(1_000_000).face(6), 5);
    // out-of-range inputs clamp before selection
    assert_eq!(FaceIndex::new(5_000_000).face(6), 5);
}

#[test]
fn cuboid_concatenates_its_gene_spaces() {
    let s = new_cuboid((1, 2, 3), (4, 5, 6), (7, 8, 9));
    assert_eq!(s.param_count(), 9);
    for g in 0..9 {
        assert_eq!(s.get_param(g) as i64, (g + 1) as i64);
    }
    let (w, h, d) = s.dims_scaled();
    assert_eq!(w, 100_000 + 9_900_000 * 1 / 1_000_000);
    assert_eq!(h, 100_000 + 9_900_000 * 2 / 1_000_000);
    assert_eq!(d, 100_000 + 9_900_000 * 3 / 1_000_000);
}

#[test]
fn gene_updates_do_not_alias() {
    let mut s = new_cuboid((0, 0, 0), (0, 0, 0), (0, 0, 0));
    s.add_to_param(4, 300_000);
    for g in 0..9 {
        if g == 4 {
            assert_eq!(s.get_param(g), 300_000);
        } else {
            assert_eq!(s.get_param(g), 0);
        }
    }
}

#[test]
fn attachment_offsets_on_each_face() {
    let my = (100_000, 200_000, 300_000);
    let parent = (1_000_000, 2_000_000, 4_000_000);
    // top face: coordinates spread over x and z, child displaced up by
    // half the parent's height plus its own
    assert_eq!(
        position_on_face(1, (500_000, -500_000), my, parent),
        (500_000, 1_200_000, -2_000_000),
    );
    // the bottom face mirrors it downward
    assert_eq!(
        position_on_face(0, (500_000, -500_000), my, parent),
        (500_000, -1_200_000, -2_000_000),
    );
    // the front face displaces along x
    assert_eq!(position_on_face(3, (0, 0), my, parent), (600_000, 0, 0));
}
