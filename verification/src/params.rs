//! The concrete gene kinds of a cuboid segment: dimensions, face-relative
//! attachment coordinates, the face selector, and rotation angles. Every
//! range is a static property of the kind, in micro-units.

use vstd::prelude::*;
use crate::generic_mutation::{clamp_raw, clamp_to_raw, scaled_spec, RangedParam, RAW_ONE};

verus! {

/// Lower bound of a cuboid dimension: 0.1 length units, in micro-units.
pub const DIM_MIN: i64 = 100_000;

/// Upper bound of a cuboid dimension: 10.0 length units, in micro-units.
pub const DIM_MAX: i64 = 10_000_000;

/// Lower bound of a face coordinate: -1.0, in micro-units.
pub const FACE_COORD_MIN: i64 = -1_000_000;

/// Upper bound of a face coordinate: 1.0, in micro-units.
pub const FACE_COORD_MAX: i64 = 1_000_000;

/// Upper bound of a rotation angle: pi radians, in micro-radians.
pub const ROT_MAX: i64 = 3_141_593;

/// x, y, z size of a cuboid, scaled into [DIM_MIN, DIM_MAX].
#[derive(Clone, Copy, Default, PartialEq, Eq, Structural)]
pub struct Dimension {
    pub raw: u32,
}

/// A coordinate on a face of the parent cuboid, scaled into [-1, 1].
#[derive(Clone, Copy, Default, PartialEq, Eq, Structural)]
pub struct FaceCoord {
    pub raw: u32,
}

/// Selector of a face of the parent cuboid; unscaled (range [0, 1]), mapped
/// onto a discrete face index on demand.
#[derive(Clone, Copy, Default, PartialEq, Eq, Structural)]
pub struct FaceIndex {
    pub raw: u32,
}

/// x, y, z rotation relative to the parent, scaled into [0, pi].
#[derive(Clone, Copy, Default, PartialEq, Eq, Structural)]
pub struct Rotation {
    pub raw: u32,
}

impl Dimension {
    pub fn new(v: i64) -> (s: Self)
        ensures
            s.inv(),
            s.raw() == clamp_raw(v as int),
    {
        Dimension { raw: clamp_to_raw(v) }
    }
}

impl RangedParam for Dimension {
    open spec fn inv(&self) -> bool {
        self.raw <= RAW_ONE
    }

    open spec fn raw(&self) -> int {
        self.raw as int
    }

    open spec fn range_spec(&self) -> (int, int) {
        (DIM_MIN as int, DIM_MAX as int)
    }

    proof fn lemma_inv(&self) {
    }

    fn range(&self) -> (r: (i64, i64)) {
        (DIM_MIN, DIM_MAX)
    }

    fn get(&self) -> (r: u32) {
        self.raw
    }

    fn set(&mut self, v: i64) {
        self.raw = clamp_to_raw(v);
    }
}

impl FaceCoord {
    pub fn new(v: i64) -> (s: Self)
        ensures
            s.inv(),
            s.raw() == clamp_raw(v as int),
    {
        FaceCoord { raw: clamp_to_raw(v) }
    }
}

impl RangedParam for FaceCoord {
    open spec fn inv(&self) -> bool {
        self.raw <= RAW_ONE
    }

    open spec fn raw(&self) -> int {
        self.raw as int
    }

    open spec fn range_spec(&self) -> (int, int) {
        (FACE_COORD_MIN as int, FACE_COORD_MAX as int)
    }

    proof fn lemma_inv(&self) {
    }

    fn range(&self) -> (r: (i64, i64)) {
        (FACE_COORD_MIN, FACE_COORD_MAX)
    }

    fn get(&self) -> (r: u32) {
        self.raw
    }

    fn set(&mut self, v: i64) {
        self.raw = clamp_to_raw(v);
    }
}

/// The discrete face picked by a face selector among `count` faces:
/// `min(raw * count / RAW_ONE, count - 1)`.
pub open spec fn face_spec(raw: int, count: int) -> int {
    let f = raw * count / (RAW_ONE as int);
    if f > count - 1 {
        count - 1
    } else {
        f
    }
}

impl FaceIndex {
    pub fn new(v: i64) -> (s: Self)
        ensures
            s.inv(),
            s.raw() == clamp_raw(v as int),
    {
        FaceIndex { raw: clamp_to_raw(v) }
    }

    /// Maps the selector onto one of `count` faces, clamped discretely into
    /// [0, count - 1].
    pub fn face(&self, count: u32) -> (f: u32)
        requires
            self.inv(),
            1 <= count,
        ensures
            f as int == face_spec(self.raw(), count as int),
            f < count,
    {
        proof {
            assert((self.raw as u64) * (count as u64) <= 4_294_967_295_000_000u64) by (nonlinear_arith)
                requires
                    self.raw <= 1_000_000,
                    count <= 4_294_967_295u32,
            ;
        }
        let scaled = (self.raw as u64) * (count as u64) / (RAW_ONE as u64);
        if scaled > (count - 1) as u64 {
            count - 1
        } else {
            scaled as u32
        }
    }
}

impl RangedParam for FaceIndex {
    open spec fn inv(&self) -> bool {
        self.raw <= RAW_ONE
    }

    open spec fn raw(&self) -> int {
        self.raw as int
    }

    open spec fn range_spec(&self) -> (int, int) {
        (0, RAW_ONE as int)
    }

    proof fn lemma_inv(&self) {
    }

    fn range(&self) -> (r: (i64, i64)) {
        (0, RAW_ONE as i64)
    }

    fn get(&self) -> (r: u32) {
        self.raw
    }

    fn set(&mut self, v: i64) {
        self.raw = clamp_to_raw(v);
    }
}

impl Rotation {
    pub fn new(v: i64) -> (s: Self)
        ensures
            s.inv(),
            s.raw() == clamp_raw(v as int),
    {
        Rotation { raw: clamp_to_raw(v) }
    }
}

impl RangedParam for Rotation {
    open spec fn inv(&self) -> bool {
        self.raw <= RAW_ONE
    }

    open spec fn raw(&self) -> int {
        self.raw as int
    }

    open spec fn range_spec(&self) -> (int, int) {
        (0, ROT_MAX as int)
    }

    proof fn lemma_inv(&self) {
    }

    fn range(&self) -> (r: (i64, i64)) {
        (0, ROT_MAX)
    }

    fn get(&self) -> (r: u32) {
        self.raw
    }

    fn set(&mut self, v: i64) {
        self.raw = clamp_to_raw(v);
    }
}

} // verus!
