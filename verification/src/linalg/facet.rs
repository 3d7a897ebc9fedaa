use vstd::prelude::*;

use super::axis::axis_of;
use super::{Axis, Mat4, Sign, Vec4};

verus! {

/// Facet of the puzzle; equivalently a pair `(Axis, Sign)`.
#[derive(Debug, Copy, Clone, PartialEq, Eq, Structural, Hash, PartialOrd, Ord)]
pub enum Facet {
    /// Right (X+)
    R,
    /// Left (X-)
    L,
    /// Up (Y+)
    U,
    /// Down (Y-)
    D,
    /// Front (Z+)
    F,
    /// Back (Z-)
    B,
    /// Out (W+)
    O,
    /// In (W-)
    I,
}

/// The facet with the given number in `0..8`.
pub open spec fn facet_of(i: int) -> Facet {
    if i == 0 {
        Facet::R
    } else if i == 1 {
        Facet::L
    } else if i == 2 {
        Facet::U
    } else if i == 3 {
        Facet::D
    } else if i == 4 {
        Facet::F
    } else if i == 5 {
        Facet::B
    } else if i == 6 {
        Facet::O
    } else {
        Facet::I
    }
}

/// The number of the facet on axis number `a` with the given sign.
pub open spec fn facet_idx_of(a: int, s: Sign) -> int {
    2 * a + (if s == Sign::Pos { 0int } else { 1int })
}

/// The number of the facet opposite to facet number `f`.
pub open spec fn opposite_idx(f: int) -> int {
    if f % 2 == 0 {
        f + 1
    } else {
        f - 1
    }
}

/// The sign of facet number `f`.
pub open spec fn sign_of_idx(f: int) -> Sign {
    if f % 2 == 0 {
        Sign::Pos
    } else {
        Sign::Neg
    }
}

/// The name of facet number `f`.
pub open spec fn facet_name(f: Facet) -> char {
    match f {
        Facet::R => 'R',
        Facet::L => 'L',
        Facet::U => 'U',
        Facet::D => 'D',
        Facet::F => 'F',
        Facet::B => 'B',
        Facet::O => 'O',
        Facet::I => 'I',
    }
}

impl Facet {
    /// All the facets, in order of their numbers.
    pub const ALL: [Facet; 8] = [
        Facet::R,
        Facet::L,
        Facet::U,
        Facet::D,
        Facet::F,
        Facet::B,
        Facet::O,
        Facet::I,
    ];

    /// Number of the facet in `0..8`: twice its axis number, plus one for the
    /// negative facet.
    pub open spec fn idx(self) -> int {
        match self {
            Facet::R => 0,
            Facet::L => 1,
            Facet::U => 2,
            Facet::D => 3,
            Facet::F => 4,
            Facet::B => 5,
            Facet::O => 6,
            Facet::I => 7,
        }
    }

    /// Axis of the facet.
    pub open spec fn spec_axis(self) -> Axis {
        axis_of(self.idx() / 2)
    }

    /// Sign of the facet.
    pub open spec fn spec_sign(self) -> Sign {
        sign_of_idx(self.idx())
    }

    /// Returns the number of the facet.
    pub fn to_u8(self) -> (r: u8)
        ensures
            r == self.idx(),
    {
        match self {
            Facet::R => 0,
            Facet::L => 1,
            Facet::U => 2,
            Facet::D => 3,
            Facet::F => 4,
            Facet::B => 5,
            Facet::O => 6,
            Facet::I => 7,
        }
    }

    /// Constructs the facet on an axis with the given sign.
    pub fn new(axis: Axis, sign: Sign) -> (r: Facet)
        ensures
            r.idx() == facet_idx_of(axis.idx(), sign),
            r.spec_axis() == axis,
            r.spec_sign() == sign,
    {
        match (axis, sign) {
            (Axis::X, Sign::Pos) => Facet::R,
            (Axis::X, Sign::Neg) => Facet::L,
            (Axis::Y, Sign::Pos) => Facet::U,
            (Axis::Y, Sign::Neg) => Facet::D,
            (Axis::Z, Sign::Pos) => Facet::F,
            (Axis::Z, Sign::Neg) => Facet::B,
            (Axis::W, Sign::Pos) => Facet::O,
            (Axis::W, Sign::Neg) => Facet::I,
        }
    }

    /// Constructs a facet from a number in the range `0..8`.
    pub fn from_u8(i: u8) -> (r: Facet)
        requires
            i < 8,
        ensures
            r.idx() == i,
            r == facet_of(i as int),
    {
        match i {
            0 => Facet::R,
            1 => Facet::L,
            2 => Facet::U,
            3 => Facet::D,
            4 => Facet::F,
            5 => Facet::B,
            6 => Facet::O,
            _ => Facet::I,
        }
    }

    /// Returns the positive facet on an axis.
    pub fn pos(axis: Axis) -> (r: Facet)
        ensures
            r.spec_axis() == axis,
            r.spec_sign() == Sign::Pos,
            r.idx() == 2 * axis.idx(),
    {
        Self::new(axis, Sign::Pos)
    }

    /// Returns the negative facet on an axis.
    pub fn neg(axis: Axis) -> (r: Facet)
        ensures
            r.spec_axis() == axis,
            r.spec_sign() == Sign::Neg,
            r.idx() == 2 * axis.idx() + 1,
    {
        Self::new(axis, Sign::Neg)
    }

    /// Returns the opposite facet on the same axis.
    pub fn opposite(self) -> (r: Facet)
        ensures
            r.idx() == opposite_idx(self.idx()),
            r.spec_axis() == self.spec_axis(),
            r.spec_sign() != self.spec_sign(),
    {
        let i = self.to_u8();
        let j = i ^ 1;
        assert(j == opposite_idx(i as int)) by (bit_vector)
            requires
                j == i ^ 1,
                i < 8,
        ;
        Self::from_u8(j)
    }

    /// Returns the axis of the facet.
    pub fn axis(self) -> (r: Axis)
        ensures
            r == self.spec_axis(),
            r.idx() == self.idx() / 2,
    {
        match self {
            Facet::R | Facet::L => Axis::X,
            Facet::U | Facet::D => Axis::Y,
            Facet::F | Facet::B => Axis::Z,
            Facet::O | Facet::I => Axis::W,
        }
    }

    /// Returns the sign of the facet.
    pub fn sign(self) -> (r: Sign)
        ensures
            r == self.spec_sign(),
    {
        match self {
            Facet::R | Facet::U | Facet::F | Facet::O => Sign::Pos,
            Facet::L | Facet::D | Facet::B | Facet::I => Sign::Neg,
        }
    }

    /// Returns the name of the facet.
    pub fn name(self) -> (r: char)
        ensures
            r == facet_name(self),
    {
        match self {
            Facet::R => 'R',
            Facet::L => 'L',
            Facet::U => 'U',
            Facet::D => 'D',
            Facet::F => 'F',
            Facet::B => 'B',
            Facet::O => 'O',
            Facet::I => 'I',
        }
    }

    /// Returns a facet from its name, or `None` if there is no such facet.
    pub fn from_name(c: char) -> (r: Option<Facet>)
        ensures
            r matches Some(f) ==> facet_name(f) == c,
            r is None ==> forall|f: Facet| facet_name(f) != c,
    {
        match c {
            'R' => Some(Facet::R),
            'L' => Some(Facet::L),
            'U' => Some(Facet::U),
            'D' => Some(Facet::D),
            'F' => Some(Facet::F),
            'B' => Some(Facet::B),
            'O' => Some(Facet::O),
            'I' => Some(Facet::I),
            _ => None,
        }
    }

    /// Returns whether the given vector is in the region of the facet, i.e.
    /// whether its component along the facet's axis has the facet's sign.
    pub fn has_vector(self, v: Vec4) -> (r: bool)
        ensures
            r == (v.at(self.spec_axis()) * self.spec_sign().val() > 0),
    {
        let x = v.get(self.axis());
        match self.sign() {
            Sign::Pos => x > 0,
            Sign::Neg => x < 0,
        }
    }

    /// Returns the normal vector of the facet.
    pub fn vec4(self) -> (r: Vec4)
        ensures
            r.is_signed_unit(self.spec_axis(), self.spec_sign()),
    {
        self.axis().signed_unit(self.sign())
    }

    /// Returns the facet that this facet is taken to by the matrix `m`.
    pub fn transform_by(self, m: Mat4) -> (r: Facet)
        ensures
            r.idx() == m.apply_idx(self.idx()),
    {
        m.mul_facet(self)
    }

    /// Returns `self` if `rhs` is positive and the opposite facet otherwise.
    pub fn mul_sign(self, rhs: Sign) -> (r: Facet)
        ensures
            r.idx() == (if rhs == Sign::Pos { self.idx() } else { opposite_idx(self.idx()) }),
    {
        match rhs {
            Sign::Pos => self,
            Sign::Neg => self.opposite(),
        }
    }

    /// Constructs a rotation or reflection matrix from `self` to `dst`.
    ///
    /// If `self == dst`, returns the identity matrix. If `self` and `dst` are
    /// opposite, returns the reflection through their axis. Otherwise, returns
    /// a 90-degree rotation matrix.
    pub fn mat4_to(self, dst: Facet) -> (r: Mat4)
        ensures
            r.view() == self.spec_mat4_to(dst).view(),
            r.apply_idx(self.idx()) == dst.idx(),
            r.is_perm(),
    {
        proof {
            self.lemma_mat4_to(dst);
        }
        if self == dst {
            Mat4::ident()
        } else if self.axis() == dst.axis() {
            Mat4::refl(self.axis())
        } else {
            if self.sign() == dst.sign() {
                self.axis().rot_to(dst.axis())
            } else {
                dst.axis().rot_to(self.axis())
            }
        }
    }

    /// The matrix that [`Self::mat4_to`] returns.
    pub open spec fn spec_mat4_to(self, dst: Facet) -> Mat4 {
        if self == dst {
            Mat4::spec_ident()
        } else if self.spec_axis() == dst.spec_axis() {
            Mat4::spec_refl(self.spec_axis())
        } else if self.spec_sign() == dst.spec_sign() {
            Mat4::spec_rot(self.spec_axis(), dst.spec_axis())
        } else {
            Mat4::spec_rot(dst.spec_axis(), self.spec_axis())
        }
    }

    /// The matrix from `self` to `dst` takes `self` to `dst`.
    pub proof fn lemma_mat4_to(self, dst: Facet)
        ensures
            self.spec_mat4_to(dst).apply_idx(self.idx()) == dst.idx(),
            self.spec_mat4_to(dst).wf(),
            self.spec_mat4_to(dst).is_perm(),
    {
        Mat4::lemma_ident();
        let a = self.spec_axis();
        let b = dst.spec_axis();
        Mat4::lemma_refl(a);
        Mat4::lemma_rot(a, b);
        Mat4::lemma_rot(b, a);
    }

    /// Returns all the sticker positions on this facet: the 27 vectors that
    /// are `±2` on the facet's axis (with the facet's sign) and in `-1..=1`
    /// on every other axis, in region order.
    pub fn stickers(self) -> (r: Vec<Vec4>)
        ensures
            r@.len() == 27,
            forall|i: int|
                0 <= i < 27 ==> #[trigger] r@[i] == Vec4::region_point(
                    self.sticker_min(),
                    self.sticker_max(),
                    i,
                ),
    {
        let axis = self.axis();
        let s = self.sign().to_i8();
        let min = Vec4([-1, -1, -1, -1]).with(axis, s * 2);
        let max = Vec4([1, 1, 1, 1]).with(axis, s * 2);
        proof {
            Vec4::lemma_region_size_sticker(min, max, axis.idx());
        }
        Vec4::region(min, max)
    }

    /// Lower corner of the sticker region of the facet.
    pub open spec fn sticker_min(self) -> Vec4 {
        Vec4::spec_with(Vec4([-1i8, -1i8, -1i8, -1i8]), self.spec_axis(), (2 * self.spec_sign().val()) as i8)
    }

    /// Upper corner of the sticker region of the facet.
    pub open spec fn sticker_max(self) -> Vec4 {
        Vec4::spec_with(Vec4([1i8, 1i8, 1i8, 1i8]), self.spec_axis(), (2 * self.spec_sign().val()) as i8)
    }
}

/// A facet's number determines it.
pub proof fn lemma_facet_of_idx(f: Facet)
    ensures
        facet_of(f.idx()) == f,
        0 <= f.idx() < 8,
{
}

/// The opposite of the opposite facet is the facet itself.
pub proof fn lemma_opposite_involution(f: int)
    requires
        0 <= f < 8,
    ensures
        opposite_idx(opposite_idx(f)) == f,
        0 <= opposite_idx(f) < 8,
        opposite_idx(f) / 2 == f / 2,
{
}

} // verus!
