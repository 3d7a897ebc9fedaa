use vstd::prelude::*;

use super::{Mat4, Sign, Vec4};

verus! {

/// Axis in 4-dimensional Euclidean space.
#[derive(Debug, Copy, Clone, PartialEq, Eq, Structural, Hash, PartialOrd, Ord)]
pub enum Axis {
    X,
    Y,
    Z,
    W,
}

/// The axis with the given number in `0..4`.
pub open spec fn axis_of(i: int) -> Axis {
    if i == 0 {
        Axis::X
    } else if i == 1 {
        Axis::Y
    } else if i == 2 {
        Axis::Z
    } else {
        Axis::W
    }
}

impl Axis {
    /// Number of the axis in `0..4`, in canonical order.
    pub open spec fn idx(self) -> int {
        match self {
            Axis::X => 0,
            Axis::Y => 1,
            Axis::Z => 2,
            Axis::W => 3,
        }
    }

    /// Returns the number of the axis.
    pub fn to_u8(self) -> (r: u8)
        ensures
            r == self.idx(),
    {
        match self {
            Axis::X => 0,
            Axis::Y => 1,
            Axis::Z => 2,
            Axis::W => 3,
        }
    }

    /// Constructs an axis from a number in the range `0..4`.
    pub fn from_u8(i: u8) -> (r: Axis)
        requires
            i < 4,
        ensures
            r.idx() == i,
            r == axis_of(i as int),
    {
        match i {
            0 => Axis::X,
            1 => Axis::Y,
            2 => Axis::Z,
            _ => Axis::W,
        }
    }

    /// Returns a unit vector on the axis.
    pub fn unit(self) -> (r: Vec4)
        ensures
            r.is_signed_unit(self, Sign::Pos),
    {
        Self::signed_unit(self, Sign::Pos)
    }

    /// Returns a unit vector on the axis with the given sign.
    pub fn signed_unit(self, sign: Sign) -> (r: Vec4)
        ensures
            r.is_signed_unit(self, sign),
    {
        let s = sign.to_i8();
        match self {
            Axis::X => Vec4([s, 0, 0, 0]),
            Axis::Y => Vec4([0, s, 0, 0]),
            Axis::Z => Vec4([0, 0, s, 0]),
            Axis::W => Vec4([0, 0, 0, s]),
        }
    }

    /// Constructs a rotation matrix from `self` to `dst`; the identity matrix
    /// if `self == dst`.
    pub fn rot_to(self, dst: Axis) -> (r: Mat4)
        ensures
            r == Mat4::spec_rot(self, dst),
    {
        Mat4::rot(self, dst)
    }

    /// Returns the axis that this axis is taken to by the matrix `m`.
    pub fn transform_by(self, m: Mat4) -> (r: Axis)
        ensures
            r.idx() == m@[self.idx()] / 2,
    {
        m.col(self).axis()
    }

    /// Returns the three axes perpendicular to this one, in canonical order.
    pub fn orthogonal_basis(self) -> (r: [Axis; 3])
        ensures
            r[0].idx() < r[1].idx() < r[2].idx(),
            r[0] != self && r[1] != self && r[2] != self,
    {
        match self {
            Axis::X => [Axis::Y, Axis::Z, Axis::W],
            Axis::Y => [Axis::X, Axis::Z, Axis::W],
            Axis::Z => [Axis::X, Axis::Y, Axis::W],
            Axis::W => [Axis::X, Axis::Y, Axis::Z],
        }
    }
}

/// Every axis is the axis of its own number.
pub proof fn lemma_axis_of_idx(a: Axis)
    ensures
        axis_of(a.idx()) == a,
        0 <= a.idx() < 4,
{
}

} // verus!
