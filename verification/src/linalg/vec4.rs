use vstd::prelude::*;

use super::axis::axis_of;
use super::facet::facet_idx_of;
use super::{Axis, Facet, Sign};

verus! {

/// Vector in 4-dimensional Euclidean space with small integer components.
#[derive(Debug, Default, Copy, Clone, PartialEq, Eq, Hash, PartialOrd, Ord)]
pub struct Vec4(pub [i8; 4]);

/// Number of integers in `min..=max`.
pub open spec fn dim(min: i8, max: i8) -> int {
    if max < min {
        0
    } else {
        max - min + 1
    }
}

/// Whether `x` fits in an `i8`.
pub open spec fn in_i8(x: int) -> bool {
    i8::MIN <= x <= i8::MAX
}

impl Vec4 {
    /// Component along axis number `i`.
    pub open spec fn comp(self, i: int) -> i8 {
        self.0[i]
    }

    /// Whether every component is in `-1..=1`, i.e. the vector is the
    /// position of a piece.
    pub open spec fn in_cube(self) -> bool {
        &&& -1 <= self.0[0] <= 1
        &&& -1 <= self.0[1] <= 1
        &&& -1 <= self.0[2] <= 1
        &&& -1 <= self.0[3] <= 1
    }

    /// Component along an axis.
    pub open spec fn at(self, a: Axis) -> i8 {
        self.0[a.idx()]
    }

    /// Whether the vector is `sign` times the unit vector on `axis`.
    pub open spec fn is_signed_unit(self, axis: Axis, sign: Sign) -> bool {
        &&& self.at(axis) == sign.val()
        &&& forall|a: Axis| a != axis ==> #[trigger] self.at(a) == 0
    }

    /// The vector with one component replaced.
    pub open spec fn spec_with(self, axis: Axis, value: i8) -> Vec4 {
        Vec4(
            [
                if axis == Axis::X { value } else { self.0[0] },
                if axis == Axis::Y { value } else { self.0[1] },
                if axis == Axis::Z { value } else { self.0[2] },
                if axis == Axis::W { value } else { self.0[3] },
            ],
        )
    }

    /// Number of nonzero components.
    pub open spec fn nonzero_count(self) -> int {
        (if self.0[0] != 0 { 1int } else { 0int }) + (if self.0[1] != 0 { 1int } else { 0int }) + (
        if self.0[2] != 0 { 1int } else { 0int }) + (if self.0[3] != 0 { 1int } else { 0int })
    }

    /// The nonzero axes of the vector, in canonical order.
    pub open spec fn spec_nonzero_axes(self) -> Seq<Axis> {
        let s0 = Seq::<Axis>::empty();
        let s1 = if self.0[0] != 0 { s0.push(Axis::X) } else { s0 };
        let s2 = if self.0[1] != 0 { s1.push(Axis::Y) } else { s1 };
        let s3 = if self.0[2] != 0 { s2.push(Axis::Z) } else { s2 };
        if self.0[3] != 0 { s3.push(Axis::W) } else { s3 }
    }

    /// Sum of the absolute values of the components.
    pub open spec fn spec_taxicab_norm(self) -> int {
        Self::partial_norm(self, 4)
    }

    /// The zero vector.
    pub fn zero() -> (r: Vec4)
        ensures
            r == Vec4([0, 0, 0, 0]),
    {
        Vec4([0, 0, 0, 0])
    }

    /// Returns whether two vectors are equal.
    pub fn same(self, other: Vec4) -> (r: bool)
        ensures
            r == (self == other),
    {
        let r = self.0[0] == other.0[0] && self.0[1] == other.0[1] && self.0[2] == other.0[2]
            && self.0[3] == other.0[3];
        assert(r ==> self.0 =~= other.0);
        r
    }

    /// Returns the component along an axis.
    pub fn get(self, axis: Axis) -> (r: i8)
        ensures
            r == self.at(axis),
    {
        match axis {
            Axis::X => self.0[0],
            Axis::Y => self.0[1],
            Axis::Z => self.0[2],
            Axis::W => self.0[3],
        }
    }

    /// Returns the vector with the component along `axis` replaced by `value`.
    pub fn with(self, axis: Axis, value: i8) -> (r: Vec4)
        ensures
            r == self.spec_with(axis, value),
            r.at(axis) == value,
            forall|a: Axis| a != axis ==> #[trigger] r.at(a) == self.at(a),
    {
        let mut ret = self;
        match axis {
            Axis::X => {
                ret.0[0] = value;
            },
            Axis::Y => {
                ret.0[1] = value;
            },
            Axis::Z => {
                ret.0[2] = value;
            },
            Axis::W => {
                ret.0[3] = value;
            },
        }
        assert(ret.0 =~= self.spec_with(axis, value).0);
        ret
    }

    /// Componentwise sum.
    pub fn add(self, rhs: Vec4) -> (r: Vec4)
        requires
            forall|i: int| 0 <= i < 4 ==> in_i8(self.comp(i) + rhs.comp(i)),
        ensures
            forall|i: int| 0 <= i < 4 ==> r.comp(i) == self.comp(i) + rhs.comp(i),
    {
        assert(0 <= 0int < 4 && 0 <= 1int < 4 && 0 <= 2int < 4 && 0 <= 3int < 4);
        let ghost _c = (self.comp(0), self.comp(1), self.comp(2), self.comp(3), rhs.comp(0), rhs.comp(1), rhs.comp(2), rhs.comp(3));
        Vec4(
            [self.0[0] + rhs.0[0], self.0[1] + rhs.0[1], self.0[2] + rhs.0[2], self.0[3] + rhs.0[3]],
        )
    }

    /// Componentwise difference.
    pub fn sub(self, rhs: Vec4) -> (r: Vec4)
        requires
            forall|i: int| 0 <= i < 4 ==> in_i8(self.comp(i) - rhs.comp(i)),
        ensures
            forall|i: int| 0 <= i < 4 ==> r.comp(i) == self.comp(i) - rhs.comp(i),
    {
        assert(0 <= 0int < 4 && 0 <= 1int < 4 && 0 <= 2int < 4 && 0 <= 3int < 4);
        let ghost _c = (self.comp(0), self.comp(1), self.comp(2), self.comp(3), rhs.comp(0), rhs.comp(1), rhs.comp(2), rhs.comp(3));
        Vec4(
            [self.0[0] - rhs.0[0], self.0[1] - rhs.0[1], self.0[2] - rhs.0[2], self.0[3] - rhs.0[3]],
        )
    }

    /// Componentwise negation.
    pub fn neg(self) -> (r: Vec4)
        requires
            forall|i: int| 0 <= i < 4 ==> self.comp(i) != i8::MIN,
        ensures
            forall|i: int| 0 <= i < 4 ==> r.comp(i) == -self.comp(i),
    {
        let ghost _c = (self.comp(0), self.comp(1), self.comp(2), self.comp(3));
        Vec4([-self.0[0], -self.0[1], -self.0[2], -self.0[3]])
    }

    /// Scalar multiple.
    pub fn scale(self, k: i8) -> (r: Vec4)
        requires
            forall|i: int| 0 <= i < 4 ==> in_i8(self.comp(i) * k),
        ensures
            forall|i: int| 0 <= i < 4 ==> r.comp(i) == self.comp(i) * k,
    {
        let ghost _c = (self.comp(0), self.comp(1), self.comp(2), self.comp(3));
        Vec4([self.0[0] * k, self.0[1] * k, self.0[2] * k, self.0[3] * k])
    }

    /// Returns the dot product of two vectors.
    pub fn dot(self, other: Vec4) -> (r: i8)
        requires
            forall|i: int| 0 <= i < 4 ==> in_i8(#[trigger] (self.comp(i) * other.comp(i))),
            in_i8(self.comp(0) * other.comp(0) + self.comp(1) * other.comp(1)),
            in_i8(self.comp(0) * other.comp(0) + self.comp(1) * other.comp(1) + self.comp(2)
                * other.comp(2)),
            in_i8(self.comp(0) * other.comp(0) + self.comp(1) * other.comp(1) + self.comp(2)
                * other.comp(2) + self.comp(3) * other.comp(3)),
        ensures
            r == self.comp(0) * other.comp(0) + self.comp(1) * other.comp(1) + self.comp(2)
                * other.comp(2) + self.comp(3) * other.comp(3),
    {
        assert(in_i8(self.comp(0) * other.comp(0)));
        assert(in_i8(self.comp(1) * other.comp(1)));
        assert(in_i8(self.comp(2) * other.comp(2)));
        assert(in_i8(self.comp(3) * other.comp(3)));
        let p0 = self.0[0] * other.0[0];
        let p1 = self.0[1] * other.0[1];
        let p2 = self.0[2] * other.0[2];
        let p3 = self.0[3] * other.0[3];
        let s = p0 + p1;
        let s = s + p2;
        s + p3
    }

    /// Returns the taxicab norm of the vector: the sum of the absolute values
    /// of its components.
    pub fn taxicab_norm(self) -> (r: usize)
        ensures
            r == self.spec_taxicab_norm(),
    {
        let mut sum: usize = 0;
        let mut i: usize = 0;
        while i < 4
            invariant
                0 <= i <= 4,
                sum <= 128 * i,
                sum == Self::partial_norm(self, i as int),
            decreases 4 - i,
        {
            let x = self.0[i];
            let a: usize = if x < 0 {
                (-(x as i16)) as usize
            } else {
                x as usize
            };
            sum = sum + a;
            i = i + 1;
        }
        sum
    }

    /// Sum of the absolute values of the first `n` components.
    pub open spec fn partial_norm(self, n: int) -> int
        decreases n,
    {
        if n <= 0 {
            0
        } else {
            Self::partial_norm(self, n - 1) + vstd::math::abs(self.0[n - 1] as int) as int
        }
    }

    /// Returns the single nonzero axis of this vector.
    pub fn unwrap_single_axis(self) -> (r: Axis)
        requires
            self.nonzero_count() == 1,
        ensures
            self.at(r) != 0,
            forall|a: Axis| a != r ==> #[trigger] self.at(a) == 0,
    {
        if self.0[0] != 0 {
            Axis::X
        } else if self.0[1] != 0 {
            Axis::Y
        } else if self.0[2] != 0 {
            Axis::Z
        } else {
            Axis::W
        }
    }

    /// Index of the last component with the greatest absolute value.
    pub open spec fn spec_max_abs_index(self) -> int {
        let a0 = vstd::math::abs(self.0[0] as int) as int;
        let a1 = vstd::math::abs(self.0[1] as int) as int;
        let a2 = vstd::math::abs(self.0[2] as int) as int;
        let a3 = vstd::math::abs(self.0[3] as int) as int;
        let (m1, i1) = if a1 >= a0 { (a1, 1int) } else { (a0, 0int) };
        let (m2, i2) = if a2 >= m1 { (a2, 2int) } else { (m1, i1) };
        if a3 >= m2 { 3int } else { i2 }
    }

    /// The piece position of a sticker vector: its (last) component with the
    /// greatest absolute value, halved rounding toward zero.
    pub open spec fn spec_sticker_piece(self) -> Vec4 {
        let a = axis_of(self.spec_max_abs_index());
        let x = self.at(a);
        self.spec_with(a, if x >= 0 { (x / 2) as i8 } else { (-((-x) / 2)) as i8 })
    }

    /// Returns the piece position and sticker axis of a sticker vector: the
    /// (last) component with the greatest absolute value is the sticker axis,
    /// and that component is halved (rounding toward zero).
    pub fn unwrap_sticker(self) -> (r: (Vec4, Axis))
        requires
            forall|i: int| 0 <= i < 4 ==> self.comp(i) != i8::MIN,
        ensures
            r.1.idx() == self.spec_max_abs_index(),
            r.0 == self.spec_with(r.1, (self.at(r.1) / 2) as i8) || (self.at(r.1) < 0 && r.0
                == self.spec_with(r.1, (-((-self.at(r.1)) / 2)) as i8)),
            self.at(r.1) >= 0 ==> r.0 == self.spec_with(r.1, (self.at(r.1) / 2) as i8),
            self.at(r.1) < 0 ==> r.0 == self.spec_with(r.1, (-((-self.at(r.1)) / 2)) as i8),
            r.0 == self.spec_sticker_piece(),
    {
        let ghost _c = (self.comp(0), self.comp(1), self.comp(2), self.comp(3));
        let a0 = if self.0[0] < 0 { -self.0[0] } else { self.0[0] };
        let a1 = if self.0[1] < 0 { -self.0[1] } else { self.0[1] };
        let a2 = if self.0[2] < 0 { -self.0[2] } else { self.0[2] };
        let a3 = if self.0[3] < 0 { -self.0[3] } else { self.0[3] };
        let (m1, i1) = if a1 >= a0 { (a1, 1u8) } else { (a0, 0u8) };
        let (m2, i2) = if a2 >= m1 { (a2, 2u8) } else { (m1, i1) };
        let i = if a3 >= m2 { 3u8 } else { i2 };
        let axis = Axis::from_u8(i);
        let x = self.get(axis);
        let half = if x < 0 { -((-x) / 2) } else { x / 2 };
        (self.with(axis, half), axis)
    }

    /// Number of points of the region `min..=max`.
    pub open spec fn region_len(min: Vec4, max: Vec4) -> int {
        dim(min.0[0], max.0[0]) * dim(min.0[1], max.0[1]) * dim(min.0[2], max.0[2]) * dim(
            min.0[3],
            max.0[3],
        )
    }

    /// The `i`th point of the region `min..=max`, in the order in which the
    /// X component varies fastest and the W component slowest.
    pub open spec fn region_point(min: Vec4, max: Vec4, i: int) -> Vec4 {
        let nx = dim(min.0[0], max.0[0]);
        let ny = dim(min.0[1], max.0[1]);
        let nz = dim(min.0[2], max.0[2]);
        Vec4(
            [
                (min.0[0] + i % nx) as i8,
                (min.0[1] + (i / nx) % ny) as i8,
                (min.0[2] + (i / (nx * ny)) % nz) as i8,
                (min.0[3] + i / (nx * ny * nz)) as i8,
            ],
        )
    }

    /// Returns all coordinates in a region including the endpoints, with the
    /// X component varying fastest and the W component slowest.
    pub fn region(min: Vec4, max: Vec4) -> (r: Vec<Vec4>)
        requires
            Self::region_len(min, max) <= usize::MAX,
        ensures
            r@.len() == Self::region_len(min, max),
            forall|i: int|
                0 <= i < r@.len() ==> #[trigger] r@[i] == Self::region_point(min, max, i),
    {
        let nx = Self::exec_dim(min.0[0], max.0[0]);
        let ny = Self::exec_dim(min.0[1], max.0[1]);
        let nz = Self::exec_dim(min.0[2], max.0[2]);
        let nw = Self::exec_dim(min.0[3], max.0[3]);
        let mut ret: Vec<Vec4> = Vec::new();
        if nx == 0 || ny == 0 || nz == 0 || nw == 0 {
            proof {
                vstd::arithmetic::mul::lemma_mul_basics(nx as int);
                vstd::arithmetic::mul::lemma_mul_basics(ny as int);
                vstd::arithmetic::mul::lemma_mul_basics(nz as int);
                vstd::arithmetic::mul::lemma_mul_basics(nw as int);
                vstd::arithmetic::mul::lemma_mul_basics((nx * ny) as int);
                vstd::arithmetic::mul::lemma_mul_basics((nx * ny * nz) as int);
            }
            return ret;
        }
        proof {
            let (a, b, c, d) = (nx as int, ny as int, nz as int, nw as int);
            assert(a * b <= a * b * c * d && a * b * c <= a * b * c * d && 1 <= a * b && 1 <= a * b * c) by (nonlinear_arith)
                requires
                    a >= 1,
                    b >= 1,
                    c >= 1,
                    d >= 1,
            ;
        }
        let nxy = nx * ny;
        let nxyz = nxy * nz;
        let n = nxyz * nw;
        let mut i: usize = 0;
        while i < n
            invariant
                0 <= i <= n,
                nx == dim(min.0[0], max.0[0]),
                ny == dim(min.0[1], max.0[1]),
                nz == dim(min.0[2], max.0[2]),
                nw == dim(min.0[3], max.0[3]),
                nx > 0 && ny > 0 && nz > 0 && nw > 0,
                nxy == nx * ny,
                nxyz == nxy * nz,
                n == nxyz * nw,
                n == Self::region_len(min, max),
                ret@.len() == i,
                forall|j: int| 0 <= j < i ==> #[trigger] ret@[j] == Self::region_point(min, max, j),
            decreases n - i,
        {
            proof {
                vstd::arithmetic::div_mod::lemma_mod_bound(i as int, nx as int);
                vstd::arithmetic::div_mod::lemma_mod_bound((i / nx) as int, ny as int);
                vstd::arithmetic::div_mod::lemma_mod_bound((i / nxy) as int, nz as int);
                vstd::arithmetic::div_mod::lemma_div_pos_is_pos(i as int, nxyz as int);
                vstd::arithmetic::div_mod::lemma_div_pos_is_pos(i as int, nx as int);
                vstd::arithmetic::div_mod::lemma_div_pos_is_pos(i as int, nxy as int);
                vstd::arithmetic::div_mod::lemma_multiply_divide_lt(i as int, nxyz as int, nw as int);
                vstd::arithmetic::mul::lemma_mul_is_commutative(nxyz as int, nw as int);
            }
            let x = (min.0[0] as i16 + (i % nx) as i16) as i8;
            let y = (min.0[1] as i16 + ((i / nx) % ny) as i16) as i8;
            let z = (min.0[2] as i16 + ((i / nxy) % nz) as i16) as i8;
            let w = (min.0[3] as i16 + (i / nxyz) as i16) as i8;
            let p = Vec4([x, y, z, w]);
            assert(p == Self::region_point(min, max, i as int));
            ret.push(p);
            i = i + 1;
        }
        ret
    }

    /// Number of integers in `min..=max`.
    fn exec_dim(min: i8, max: i8) -> (r: usize)
        ensures
            r == dim(min, max),
            r <= 256,
    {
        if max < min {
            0
        } else {
            (max as i16 - min as i16 + 1) as usize
        }
    }

    /// The region between two corners, one of which is `±2` along one axis
    /// and the other `-1..=1` along every other axis, has 27 points.
    pub proof fn lemma_region_size_sticker(min: Vec4, max: Vec4, a: int)
        requires
            0 <= a < 4,
            min.0[a] == max.0[a],
            forall|i: int| 0 <= i < 4 && i != a ==> min.0[i] == -1 && max.0[i] == 1,
        ensures
            Self::region_len(min, max) == 27,
    {
        assert(dim(min.0[a], max.0[a]) == 1);
        if a == 0 {
            assert(Self::region_len(min, max) == 1 * 3 * 3 * 3);
        } else if a == 1 {
            assert(Self::region_len(min, max) == 3 * 1 * 3 * 3);
        } else if a == 2 {
            assert(Self::region_len(min, max) == 3 * 3 * 1 * 3);
        } else {
            assert(Self::region_len(min, max) == 3 * 3 * 3 * 1);
        }
    }

    /// The region between two corners that are `-1` and `1` along every axis
    /// has 81 points.
    pub proof fn lemma_region_size_cube(min: Vec4, max: Vec4)
        requires
            forall|i: int| 0 <= i < 4 ==> min.0[i] == -1 && max.0[i] == 1,
        ensures
            Self::region_len(min, max) == 81,
    {
        assert(dim(min.0[0], max.0[0]) == 3);
        assert(dim(min.0[1], max.0[1]) == 3);
        assert(dim(min.0[2], max.0[2]) == 3);
        assert(dim(min.0[3], max.0[3]) == 3);
        assert(Self::region_len(min, max) == 3 * 3 * 3 * 3);
    }

    /// Returns the axes that are nonzero in the vector, in canonical order.
    pub fn nonzero_axes(self) -> (r: Vec<Axis>)
        ensures
            r@ == self.spec_nonzero_axes(),
    {
        let mut ret: Vec<Axis> = Vec::new();
        if self.0[0] != 0 {
            ret.push(Axis::X);
        }
        if self.0[1] != 0 {
            ret.push(Axis::Y);
        }
        if self.0[2] != 0 {
            ret.push(Axis::Z);
        }
        if self.0[3] != 0 {
            ret.push(Axis::W);
        }
        ret
    }

    /// Returns the facets that the vector is on: one for each nonzero axis, in
    /// canonical order, with the sign of the component.
    pub fn facets(self) -> (r: Vec<Facet>)
        ensures
            r@.len() == self.spec_nonzero_axes().len(),
            forall|i: int|
                0 <= i < r@.len() ==> {
                    let a = #[trigger] self.spec_nonzero_axes()[i];
                    r@[i].idx() == facet_idx_of(
                        a.idx(),
                        if self.at(a) > 0 { Sign::Pos } else { Sign::Neg },
                    )
                },
    {
        let axes = self.nonzero_axes();
        let mut ret: Vec<Facet> = Vec::new();
        let mut i: usize = 0;
        while i < axes.len()
            invariant
                0 <= i <= axes@.len(),
                axes@ == self.spec_nonzero_axes(),
                ret@.len() == i,
                forall|j: int|
                    0 <= j < i ==> {
                        let a = #[trigger] self.spec_nonzero_axes()[j];
                        ret@[j].idx() == facet_idx_of(
                            a.idx(),
                            if self.at(a) > 0 { Sign::Pos } else { Sign::Neg },
                        )
                    },
            decreases axes@.len() - i,
        {
            let a = axes[i];
            assert(self.spec_nonzero_axes()[i as int] == a);
            proof {
                self.lemma_nonzero_axes_nonzero(i as int);
            }
            let f = Facet::new(a, Sign::from_i8(self.get(a)));
            ret.push(f);
            i = i + 1;
        }
        ret
    }

    /// Every listed nonzero axis is nonzero, and the list is in canonical
    /// order without repetition.
    pub proof fn lemma_nonzero_axes_nonzero(self, i: int)
        requires
            0 <= i < self.spec_nonzero_axes().len(),
        ensures
            self.at(self.spec_nonzero_axes()[i]) != 0,
    {
    }

    /// Returns the first axis from `order` that is nonzero in the vector, or
    /// `None` if they are all zero.
    pub fn unwrap_first_nonzero_axis(self, order: [Axis; 4]) -> (r: Option<Axis>)
        ensures
            r matches Some(a) ==> exists|k: int|
                0 <= k < 4 && order[k] == a && self.at(a) != 0 && forall|j: int|
                    0 <= j < k ==> #[trigger] self.at(order[j]) == 0,
            r is None ==> forall|j: int| 0 <= j < 4 ==> #[trigger] self.at(order[j]) == 0,
    {
        let mut i: usize = 0;
        while i < 4
            invariant
                0 <= i <= 4,
                forall|j: int| 0 <= j < i ==> #[trigger] self.at(order[j]) == 0,
            decreases 4 - i,
        {
            let a = order[i];
            if self.get(a) != 0 {
                return Some(a);
            }
            i = i + 1;
        }
        None
    }
}

} // verus!
