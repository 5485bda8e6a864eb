//! Segment definitions and joints: the node and edge data of a body tree.
//! A cuboid segment concatenates its dimension, position and rotation genes
//! into one flat index space of nine genes.

use vstd::prelude::*;
use crate::generic_mutation::{clamp_raw, ParamHolder, ParamSet3d, RangedParam, RAW_ONE};
use crate::params::{Dimension, FaceCoord, FaceIndex, Rotation};

verus! {

/// How a child segment attaches to its parent. `Ground` marks the synthetic
/// root attachment (no parent body); `Fixed` rigidly welds a child to its
/// parent at the face-relative offset.
#[derive(Clone, Copy, Debug, PartialEq, Eq, Structural)]
pub enum Joint {
    Fixed,
    Ground,
}

/// One rigid segment of a creature. The only variant so far is a cuboid:
/// three dimension genes, a face-relative position (face selector plus two
/// face coordinates), and three rotation genes — nine genes in all.
#[derive(Clone, Copy)]
pub enum ShapeDefinition {
    Cuboid {
        dims: ParamSet3d<Dimension>,
        pos: (FaceIndex, FaceCoord, FaceCoord),
        rot: ParamSet3d<Rotation>,
    },
}

/// Number of genes of a cuboid segment.
pub const CUBOID_PARAM_COUNT: usize = 9;

/// Builds a cuboid segment from raw micro-unit gene values, clamping each
/// into [0, RAW_ONE].
pub fn new_cuboid(dims: (i64, i64, i64), pos: (i64, i64, i64), rot: (i64, i64, i64)) -> (s:
    ShapeDefinition)
    ensures
        s.inv(),
        s.count_spec() == CUBOID_PARAM_COUNT as int,
        s.raw_at(0) == clamp_raw(dims.0 as int),
        s.raw_at(1) == clamp_raw(dims.1 as int),
        s.raw_at(2) == clamp_raw(dims.2 as int),
        s.raw_at(3) == clamp_raw(pos.0 as int),
        s.raw_at(4) == clamp_raw(pos.1 as int),
        s.raw_at(5) == clamp_raw(pos.2 as int),
        s.raw_at(6) == clamp_raw(rot.0 as int),
        s.raw_at(7) == clamp_raw(rot.1 as int),
        s.raw_at(8) == clamp_raw(rot.2 as int),
{
    let dims = ParamSet3d::new(
        Dimension::new(dims.0),
        Dimension::new(dims.1),
        Dimension::new(dims.2),
    );
    let pos = (FaceIndex::new(pos.0), FaceCoord::new(pos.1), FaceCoord::new(pos.2));
    let rot = ParamSet3d::new(Rotation::new(rot.0), Rotation::new(rot.1), Rotation::new(rot.2));
    ShapeDefinition::Cuboid { dims, pos, rot }
}

impl ParamHolder for ShapeDefinition {
    open spec fn inv(&self) -> bool {
        match self {
            ShapeDefinition::Cuboid { dims, pos, rot } => {
                dims.inv() && pos.0.inv() && pos.1.inv() && pos.2.inv() && rot.inv()
            },
        }
    }

    open spec fn count_spec(&self) -> int {
        9
    }

    open spec fn raw_at(&self, i: int) -> int {
        match self {
            ShapeDefinition::Cuboid { dims, pos, rot } => {
                if i < 3 {
                    dims.raw_at(i)
                } else if i == 3 {
                    pos.0.raw()
                } else if i == 4 {
                    pos.1.raw()
                } else if i == 5 {
                    pos.2.raw()
                } else {
                    rot.raw_at(i - 6)
                }
            },
        }
    }

    open spec fn range_at(&self, i: int) -> (int, int) {
        match self {
            ShapeDefinition::Cuboid { dims, pos, rot } => {
                if i < 3 {
                    dims.range_at(i)
                } else if i == 3 {
                    pos.0.range_spec()
                } else if i == 4 {
                    pos.1.range_spec()
                } else if i == 5 {
                    pos.2.range_spec()
                } else {
                    rot.range_at(i - 6)
                }
            },
        }
    }

    proof fn lemma_inv(&self) {
        match self {
            ShapeDefinition::Cuboid { dims, pos, rot } => {
                dims.lemma_inv();
                pos.0.lemma_inv();
                pos.1.lemma_inv();
                pos.2.lemma_inv();
                rot.lemma_inv();
            },
        }
    }

    fn param_count(&self) -> (n: usize) {
        CUBOID_PARAM_COUNT
    }

    fn get_param(&self, index: usize) -> (r: u32) {
        match self {
            ShapeDefinition::Cuboid { dims, pos, rot } => {
                if index < 3 {
                    dims.get_param(index)
                } else if index == 3 {
                    pos.0.get()
                } else if index == 4 {
                    pos.1.get()
                } else if index == 5 {
                    pos.2.get()
                } else {
                    rot.get_param(index - 6)
                }
            },
        }
    }

    fn add_to_param(&mut self, index: usize, offset: i64) {
        let ShapeDefinition::Cuboid { mut dims, mut pos, mut rot } = *self;
        if index < 3 {
            dims.add_to_param(index, offset);
        } else if index == 3 {
            pos.0.add_assign(offset);
        } else if index == 4 {
            pos.1.add_assign(offset);
        } else if index == 5 {
            pos.2.add_assign(offset);
        } else {
            rot.add_to_param(index - 6, offset);
        }
        *self = ShapeDefinition::Cuboid { dims, pos, rot };
    }
}

/// A face coordinate applied to a span: `c * d / RAW_ONE`, rounded toward
/// zero. `c` is a scaled face coordinate in [-RAW_ONE, RAW_ONE]; `d` is a
/// non-negative scaled length.
pub open spec fn scale_by_unit(c: int, d: int) -> int {
    if c >= 0 {
        c * d / (RAW_ONE as int)
    } else {
        -((-c) * d / (RAW_ONE as int))
    }
}

/// The attachment offset of a child on face `face` of its parent cuboid:
/// the two face coordinates spread over the face's spans, and the child
/// displaced outward by half the parent's thickness plus its own. Faces
/// come in opposite pairs along y, x and z.
pub open spec fn face_offset(
    face: int,
    f1: int,
    f2: int,
    my: (int, int, int),
    parent: (int, int, int),
) -> (int, int, int) {
    if face == 0 {
        (scale_by_unit(f1, parent.0), -(parent.1 / 2 + my.1), scale_by_unit(f2, parent.2))
    } else if face == 1 {
        (scale_by_unit(f1, parent.0), parent.1 / 2 + my.1, scale_by_unit(f2, parent.2))
    } else if face == 2 {
        (-(parent.0 / 2 + my.0), scale_by_unit(f1, parent.1), scale_by_unit(f2, parent.2))
    } else if face == 3 {
        (parent.0 / 2 + my.0, scale_by_unit(f1, parent.1), scale_by_unit(f2, parent.2))
    } else if face == 4 {
        (scale_by_unit(f1, parent.0), scale_by_unit(f2, parent.1), parent.2 / 2 + my.2)
    } else {
        (scale_by_unit(f1, parent.0), scale_by_unit(f2, parent.1), -(parent.2 / 2 + my.2))
    }
}

/// `c * d / RAW_ONE`, rounded toward zero.
fn mul_unit(c: i64, d: i64) -> (r: i64)
    requires
        -(RAW_ONE as int) <= c <= RAW_ONE as int,
        0 <= d <= crate::generic_mutation::RANGE_LIMIT as int,
    ensures
        r as int == scale_by_unit(c as int, d as int),
{
    if c >= 0 {
        proof {
            assert((c as int) * (d as int) <= 1_000_000_000_000_000) by (nonlinear_arith)
                requires
                    0 <= c as int <= 1_000_000,
                    0 <= d as int <= 1_000_000_000,
            ;
            assert((c as int) * (d as int) >= 0) by (nonlinear_arith)
                requires
                    0 <= c as int,
                    0 <= d as int,
            ;
        }
        ((c as u64) * (d as u64) / (RAW_ONE as u64)) as i64
    } else {
        let nc = -c;
        proof {
            assert((nc as int) * (d as int) <= 1_000_000_000_000_000) by (nonlinear_arith)
                requires
                    0 <= nc as int <= 1_000_000,
                    0 <= d as int <= 1_000_000_000,
            ;
            assert((nc as int) * (d as int) >= 0) by (nonlinear_arith)
                requires
                    0 <= nc as int,
                    0 <= d as int,
            ;
        }
        -(((nc as u64) * (d as u64) / (RAW_ONE as u64)) as i64)
    }
}

/// The attachment position of a child segment on one of the six faces of
/// its parent cuboid, from the scaled face coordinates and the two
/// segments' scaled dimensions. A face index of six or more is a contract
/// violation.
pub fn position_on_face(
    face_index: u32,
    face_coords: (i64, i64),
    my_dims: (i64, i64, i64),
    parent_dims: (i64, i64, i64),
) -> (r: (i64, i64, i64))
    requires
        face_index < 6,
        -(RAW_ONE as int) <= face_coords.0 <= RAW_ONE as int,
        -(RAW_ONE as int) <= face_coords.1 <= RAW_ONE as int,
        0 <= my_dims.0 <= crate::generic_mutation::RANGE_LIMIT as int,
        0 <= my_dims.1 <= crate::generic_mutation::RANGE_LIMIT as int,
        0 <= my_dims.2 <= crate::generic_mutation::RANGE_LIMIT as int,
        0 <= parent_dims.0 <= crate::generic_mutation::RANGE_LIMIT as int,
        0 <= parent_dims.1 <= crate::generic_mutation::RANGE_LIMIT as int,
        0 <= parent_dims.2 <= crate::generic_mutation::RANGE_LIMIT as int,
    ensures
        (r.0 as int, r.1 as int, r.2 as int) == face_offset(
            face_index as int,
            face_coords.0 as int,
            face_coords.1 as int,
            (my_dims.0 as int, my_dims.1 as int, my_dims.2 as int),
            (parent_dims.0 as int, parent_dims.1 as int, parent_dims.2 as int),
        ),
{
    let (f1, f2) = face_coords;
    let (mx, my, mz) = my_dims;
    let (px, py, pz) = parent_dims;
    if face_index == 0 {
        // bottom
        (mul_unit(f1, px), -(py / 2 + my), mul_unit(f2, pz))
    } else if face_index == 1 {
        // top
        (mul_unit(f1, px), py / 2 + my, mul_unit(f2, pz))
    } else if face_index == 2 {
        // back
        (-(px / 2 + mx), mul_unit(f1, py), mul_unit(f2, pz))
    } else if face_index == 3 {
        // front
        (px / 2 + mx, mul_unit(f1, py), mul_unit(f2, pz))
    } else if face_index == 4 {
        // left
        (mul_unit(f1, px), mul_unit(f2, py), pz / 2 + mz)
    } else {
        // right
        (mul_unit(f1, px), mul_unit(f2, py), -(pz / 2 + mz))
    }
}

/// Two segments with the same raw value in every gene slot are the same
/// segment: the flat index space determines the whole definition.
pub proof fn lemma_shape_eq_from_raws(a: ShapeDefinition, b: ShapeDefinition)
    requires
        forall|j: int| 0 <= j < 9 ==> a.raw_at(j) == b.raw_at(j),
    ensures
        a == b,
{
    match a {
        ShapeDefinition::Cuboid { dims: da, pos: pa, rot: ra } => {
            match b {
                ShapeDefinition::Cuboid { dims: db, pos: pb, rot: rb } => {
                    assert(a.raw_at(0) == b.raw_at(0));
                    assert(a.raw_at(1) == b.raw_at(1));
                    assert(a.raw_at(2) == b.raw_at(2));
                    assert(a.raw_at(3) == b.raw_at(3));
                    assert(a.raw_at(4) == b.raw_at(4));
                    assert(a.raw_at(5) == b.raw_at(5));
                    assert(a.raw_at(6) == b.raw_at(6));
                    assert(a.raw_at(7) == b.raw_at(7));
                    assert(a.raw_at(8) == b.raw_at(8));
                    assert(da.x == db.x && da.y == db.y && da.z == db.z);
                    assert(pa.0 == pb.0 && pa.1 == pb.1 && pa.2 == pb.2);
                    assert(ra.x == rb.x && ra.y == rb.y && ra.z == rb.z);
                },
            }
        },
    }
}

impl ShapeDefinition {
    /// The scaled cuboid dimensions (width, height, depth), in micro-units.
    pub fn dims_scaled(&self) -> (r: (i64, i64, i64))
        requires
            self.inv(),
        ensures
            r.0 as int == crate::generic_mutation::scaled_spec(
                self.range_at(0).0,
                self.range_at(0).1,
                self.raw_at(0),
            ),
            r.1 as int == crate::generic_mutation::scaled_spec(
                self.range_at(1).0,
                self.range_at(1).1,
                self.raw_at(1),
            ),
            r.2 as int == crate::generic_mutation::scaled_spec(
                self.range_at(2).0,
                self.range_at(2).1,
                self.raw_at(2),
            ),
    {
        match self {
            ShapeDefinition::Cuboid { dims, .. } => dims.components_scaled(),
        }
    }
}

} // verus!
