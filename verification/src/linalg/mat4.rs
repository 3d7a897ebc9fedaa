use vstd::prelude::*;

use super::facet::{facet_idx_of, opposite_idx, sign_of_idx};
use super::vec4::in_i8;
use super::{Axis, Facet, Sign, Vec4};

verus! {

/// Packed 4x4 matrix whose columns are each a signed unit vector,
/// represented in 12 bits.
///
/// Column `c` occupies bits `3c..3c + 3` and holds the number of a [`Facet`]:
/// the position of the column's nonzero entry (the facet's axis) and its sign
/// (the facet's sign).
#[derive(Debug, Copy, Clone, PartialEq, Eq, Structural, Hash)]
pub struct Mat4(pub(crate) u16);

/// `c` if `s` is even, otherwise the facet opposite to `c`.
pub open spec fn flip_if(c: int, s: int) -> int {
    if s % 2 == 0 {
        c
    } else {
        opposite_idx(c)
    }
}

/// Whether `s` is a list of four facet numbers.
pub open spec fn valid_cols(s: Seq<int>) -> bool {
    &&& s.len() == 4
    &&& forall|i: int| 0 <= i < 4 ==> 0 <= #[trigger] s[i] < 8
}

/// The columns of the identity matrix.
pub open spec fn ident_cols() -> Seq<int> {
    seq![0int, 2int, 4int, 6int]
}

/// Packed bits for a list of four facet numbers.
pub open spec fn pack(s: Seq<int>) -> int {
    s[0] + 8 * s[1] + 64 * s[2] + 512 * s[3]
}

/// The facet number stored in column `c` of the packed bits `m`.
pub open spec fn unpack(m: int, c: int) -> int {
    if c == 0 {
        m % 8
    } else if c == 1 {
        (m / 8) % 8
    } else if c == 2 {
        (m / 64) % 8
    } else {
        (m / 512) % 8
    }
}

proof fn lemma_shift_col(m: u16)
    ensures
        m & 7 == m % 8,
        (m >> 3) & 7 == (m / 8) % 8,
        (m >> 6) & 7 == (m / 64) % 8,
        (m >> 9) & 7 == (m / 512) % 8,
{
    assert(m & 7 == m % 8 && (m >> 3) & 7 == (m / 8) % 8 && (m >> 6) & 7 == (m / 64) % 8 && (m >> 9) & 7 == (m / 512)
        % 8) by (bit_vector);
}

proof fn lemma_pack_bits(c0: u16, c1: u16, c2: u16, c3: u16)
    requires
        c0 < 8,
        c1 < 8,
        c2 < 8,
        c3 < 8,
    ensures
        c0 | (c1 << 3) | (c2 << 6) | (c3 << 9) == c0 + 8 * c1 + 64 * c2 + 512 * c3,
{
    assert(c0 | (c1 << 3) | (c2 << 6) | (c3 << 9) == c0 + 8 * c1 + 64 * c2 + 512 * c3)
        by (bit_vector)
        requires
            c0 < 8,
            c1 < 8,
            c2 < 8,
            c3 < 8,
    ;
}

/// Unpacking packed columns gives the columns back.
pub proof fn lemma_unpack_pack(s: Seq<int>)
    requires
        valid_cols(s),
    ensures
        0 <= pack(s) < 4096,
        forall|c: int| 0 <= c < 4 ==> #[trigger] unpack(pack(s), c) == s[c],
{
    let p = pack(s);
    assert(0 <= s[0] < 8 && 0 <= s[1] < 8 && 0 <= s[2] < 8 && 0 <= s[3] < 8);
    assert(p % 8 == s[0]) by (nonlinear_arith)
        requires
            p == s[0] + 8 * s[1] + 64 * s[2] + 512 * s[3],
            0 <= s[0] < 8,
            0 <= s[1] < 8,
            0 <= s[2] < 8,
            0 <= s[3] < 8,
    ;
    assert((p / 8) % 8 == s[1]) by (nonlinear_arith)
        requires
            p == s[0] + 8 * s[1] + 64 * s[2] + 512 * s[3],
            0 <= s[0] < 8,
            0 <= s[1] < 8,
            0 <= s[2] < 8,
            0 <= s[3] < 8,
    ;
    assert((p / 64) % 8 == s[2]) by (nonlinear_arith)
        requires
            p == s[0] + 8 * s[1] + 64 * s[2] + 512 * s[3],
            0 <= s[0] < 8,
            0 <= s[1] < 8,
            0 <= s[2] < 8,
            0 <= s[3] < 8,
    ;
    assert((p / 512) % 8 == s[3]) by (nonlinear_arith)
        requires
            p == s[0] + 8 * s[1] + 64 * s[2] + 512 * s[3],
            0 <= s[0] < 8,
            0 <= s[1] < 8,
            0 <= s[2] < 8,
            0 <= s[3] < 8,
    ;
}

/// Packing the unpacked columns of bits below 4096 gives the bits back.
pub proof fn lemma_pack_unpack(m: int)
    requires
        0 <= m < 4096,
    ensures
        pack(seq![unpack(m, 0), unpack(m, 1), unpack(m, 2), unpack(m, 3)]) == m,
{
    let s = seq![unpack(m, 0), unpack(m, 1), unpack(m, 2), unpack(m, 3)];
    assert(s[0] + 8 * s[1] + 64 * s[2] + 512 * s[3] == m) by (nonlinear_arith)
        requires
            0 <= m < 4096,
            s[0] == m % 8,
            s[1] == (m / 8) % 8,
            s[2] == (m / 64) % 8,
            s[3] == (m / 512) % 8,
    ;
}

impl View for Mat4 {
    type V = Seq<int>;

    /// The facet numbers of the four columns.
    open spec fn view(&self) -> Seq<int> {
        seq![unpack(self.bits(), 0), unpack(self.bits(), 1), unpack(self.bits(), 2), unpack(self.bits(), 3)]
    }
}

impl Mat4 {
    /// Only the low 12 bits are used.
    #[verifier::type_invariant]
    pub closed spec fn wf(self) -> bool {
        self.0 < 4096
    }

    /// The packed bits.
    pub closed spec fn bits(self) -> int {
        self.0 as int
    }

    /// The matrix with the given packed bits.
    pub closed spec fn spec_from_bits(b: int) -> Mat4 {
        Mat4(b as u16)
    }

    /// The matrix with the given column facet numbers.
    pub closed spec fn spec_from_cols(s: Seq<int>) -> Mat4 {
        Mat4(pack(s) as u16)
    }

    /// Identity matrix.
    pub open spec fn spec_ident() -> Mat4 {
        Self::spec_from_cols(ident_cols())
    }

    /// The facet number that facet number `f` is taken to by the matrix.
    pub open spec fn apply_idx(self, f: int) -> int {
        flip_if(self@[f / 2], f % 2)
    }

    /// Matrix product.
    pub open spec fn spec_mul(self, rhs: Mat4) -> Mat4 {
        Self::spec_from_cols(
            seq![
                self.apply_idx(rhs@[0]),
                self.apply_idx(rhs@[1]),
                self.apply_idx(rhs@[2]),
                self.apply_idx(rhs@[3]),
            ],
        )
    }

    /// Rotation taking `ax1` to `ax2` (and `ax2` to minus `ax1`).
    pub open spec fn spec_rot(ax1: Axis, ax2: Axis) -> Mat4 {
        Self::spec_from_cols(
            ident_cols().update(ax2.idx(), 2 * ax1.idx() + 1).update(ax1.idx(), 2 * ax2.idx()),
        )
    }

    /// Reflection through `axis`.
    pub open spec fn spec_refl(axis: Axis) -> Mat4 {
        Self::spec_from_cols(ident_cols().update(axis.idx(), 2 * axis.idx() + 1))
    }

    /// 180-degree rotation in the plane of `ax1` and `ax2`.
    pub open spec fn spec_rot180(ax1: Axis, ax2: Axis) -> Mat4 {
        let s1 = ident_cols().update(ax1.idx(), 2 * ax1.idx() + 1);
        Self::spec_from_cols(s1.update(ax2.idx(), opposite_idx(s1[ax2.idx()])))
    }

    /// The matrix that [`Self::inv`] returns: each column `c`, holding a
    /// facet on axis `a`, becomes column `a` holding the facet on axis `c`
    /// with the same sign.
    pub open spec fn spec_inv(self) -> Mat4 {
        let m = self@;
        Self::spec_from_cols(
            ident_cols().update(m[0] / 2, 0 + m[0] % 2).update(m[1] / 2, 2 + m[1] % 2).update(
                m[2] / 2,
                4 + m[2] % 2,
            ).update(m[3] / 2, 6 + m[3] % 2),
        )
    }

    /// Whether the columns lie on four different axes, i.e. the matrix is a
    /// signed permutation matrix.
    pub open spec fn is_perm(self) -> bool {
        let m = self@;
        &&& m[0] / 2 != m[1] / 2
        &&& m[0] / 2 != m[2] / 2
        &&& m[0] / 2 != m[3] / 2
        &&& m[1] / 2 != m[2] / 2
        &&& m[1] / 2 != m[3] / 2
        &&& m[2] / 2 != m[3] / 2
    }

    /// The determinant of a signed permutation matrix (the sign of the
    /// permutation of axes times the signs of the columns), and 0 for any
    /// other matrix, whose columns repeat an axis.
    pub open spec fn spec_det(self) -> int {
        let m = self@;
        if !self.is_perm() {
            0
        } else {
            let inversions = (if m[0] / 2 > m[1] / 2 { 1int } else { 0 }) + (if m[0] / 2 > m[2] / 2 { 1int } else { 0 })
                + (if m[0] / 2 > m[3] / 2 { 1int } else { 0 }) + (if m[1] / 2 > m[2] / 2 { 1int } else { 0 })
                + (if m[1] / 2 > m[3] / 2 { 1int } else { 0 }) + (if m[2] / 2 > m[3] / 2 { 1int } else { 0 });
            let negatives = m[0] % 2 + m[1] % 2 + m[2] % 2 + m[3] % 2;
            if (inversions + negatives) % 2 == 0 {
                1
            } else {
                -1
            }
        }
    }

    /// Whether the matrix is a rotation of the hypercube: a signed
    /// permutation matrix with determinant 1.
    pub open spec fn is_rotation(self) -> bool {
        self.is_perm() && self.spec_det() == 1
    }

    /// `self` raised to a natural power, as a repeated product.
    pub open spec fn spec_pow(self, n: nat) -> Mat4
        decreases n,
    {
        if n == 0 {
            Self::spec_ident()
        } else {
            self.spec_pow((n - 1) as nat).spec_mul(self)
        }
    }

    /// `m * self * m⁻¹`.
    pub open spec fn spec_transform_by(self, m: Mat4) -> Mat4 {
        m.spec_mul(self).spec_mul(m.spec_inv())
    }

    /// The columns of a matrix are facet numbers, and its bits are determined
    /// by its columns.
    pub proof fn lemma_view(self)
        ensures
            valid_cols(self@),
            self.wf() ==> Self::spec_from_cols(self@) == self,
    {
        if self.0 < 4096 {
            lemma_pack_unpack(self.0 as int);
        }
    }

    /// A matrix built from facet numbers has those columns.
    pub proof fn lemma_from_cols(s: Seq<int>)
        requires
            valid_cols(s),
        ensures
            Self::spec_from_cols(s)@ == s,
            Self::spec_from_cols(s).wf(),
    {
        lemma_unpack_pack(s);
        assert(Self::spec_from_cols(s)@ =~= s);
    }

    /// A matrix built from bits below 4096 has those bits.
    pub proof fn lemma_from_bits(b: int)
        requires
            0 <= b < 4096,
        ensures
            Self::spec_from_bits(b).bits() == b,
            Self::spec_from_bits(b).wf(),
            Self::spec_from_bits(b)@ == seq![unpack(b, 0), unpack(b, 1), unpack(b, 2), unpack(b, 3)],
    {
    }

    /// Bits and columns of a matrix.
    pub proof fn lemma_bits(self)
        requires
            self.wf(),
        ensures
            0 <= self.bits() < 4096,
            Self::spec_from_bits(self.bits()) == self,
            pack(self@) == self.bits(),
    {
        lemma_pack_unpack(self.0 as int);
    }

    /// Two matrices with the same columns are equal.
    pub proof fn lemma_ext(a: Mat4, b: Mat4)
        requires
            a.wf(),
            b.wf(),
            a@ == b@,
        ensures
            a == b,
    {
        a.lemma_view();
        b.lemma_view();
    }

    /// The identity's columns.
    pub proof fn lemma_ident()
        ensures
            Self::spec_ident()@ == ident_cols(),
            Self::spec_ident().wf(),
            Self::spec_ident().is_perm(),
            forall|f: int| 0 <= f < 8 ==> #[trigger] Self::spec_ident().apply_idx(f) == f,
    {
        Self::lemma_from_cols(ident_cols());
    }

    /// Columns of a product; the product applies the right factor first.
    pub proof fn lemma_mul(a: Mat4, b: Mat4)
        ensures
            a.spec_mul(b)@ == seq![a.apply_idx(b@[0]), a.apply_idx(b@[1]), a.apply_idx(b@[2]), a.apply_idx(b@[3])],
            a.spec_mul(b).wf(),
            forall|f: int|
                0 <= f < 8 ==> #[trigger] a.spec_mul(b).apply_idx(f) == a.apply_idx(b.apply_idx(f)),
    {
        a.lemma_view();
        b.lemma_view();
        let s = seq![a.apply_idx(b@[0]), a.apply_idx(b@[1]), a.apply_idx(b@[2]), a.apply_idx(b@[3])];
        assert forall|i: int| 0 <= i < 4 implies 0 <= #[trigger] s[i] < 8 by {
            lemma_apply_range(a, b@[i]);
        }
        Self::lemma_from_cols(s);
        assert forall|f: int| 0 <= f < 8 implies #[trigger] a.spec_mul(b).apply_idx(f) == a.apply_idx(
            b.apply_idx(f),
        ) by {
            let h = b@[f / 2];
            lemma_apply_flip(a, h, f % 2);
        }
    }

    /// Matrix multiplication is associative.
    pub proof fn lemma_mul_assoc(a: Mat4, b: Mat4, c: Mat4)
        ensures
            a.spec_mul(b).spec_mul(c) == a.spec_mul(b.spec_mul(c)),
    {
        Self::lemma_mul(a, b);
        Self::lemma_mul(b, c);
        Self::lemma_mul(a.spec_mul(b), c);
        Self::lemma_mul(a, b.spec_mul(c));
        c.lemma_view();
        assert(a.spec_mul(b).spec_mul(c)@ =~= a.spec_mul(b.spec_mul(c))@);
        Self::lemma_ext(a.spec_mul(b).spec_mul(c), a.spec_mul(b.spec_mul(c)));
    }

    /// The identity is a two-sided unit of multiplication.
    #[verifier::spinoff_prover]
    #[verifier::rlimit(60)]
    pub proof fn lemma_mul_ident(a: Mat4)
        requires
            a.wf(),
        ensures
            Self::spec_ident().spec_mul(a) == a,
            a.spec_mul(Self::spec_ident()) == a,
    {
        Self::lemma_ident();
        Self::lemma_mul(Self::spec_ident(), a);
        Self::lemma_mul(a, Self::spec_ident());
        a.lemma_view();
        assert(Self::spec_ident().spec_mul(a)@ =~= a@);
        assert(a.spec_mul(Self::spec_ident())@ =~= a@);
        Self::lemma_ext(Self::spec_ident().spec_mul(a), a);
        Self::lemma_ext(a.spec_mul(Self::spec_ident()), a);
    }

    /// The inverse of a signed permutation matrix is a two-sided inverse.
    pub proof fn lemma_inv(a: Mat4)
        requires
            a.wf(),
            a.is_perm(),
        ensures
            a.spec_mul(a.spec_inv()) == Self::spec_ident(),
            a.spec_inv().spec_mul(a) == Self::spec_ident(),
            a.spec_inv().is_perm(),
            a.spec_inv().wf(),
    {
        a.lemma_view();
        let m = a@;
        let s = ident_cols().update(m[0] / 2, 0 + m[0] % 2).update(m[1] / 2, 2 + m[1] % 2).update(
            m[2] / 2,
            4 + m[2] % 2,
        ).update(m[3] / 2, 6 + m[3] % 2);
        assert(valid_cols(s));
        Self::lemma_from_cols(s);
        let inv = a.spec_inv();
        assert(inv@ == s);
        assert(inv@[m[0] / 2] == 0 + m[0] % 2);
        assert(inv@[m[1] / 2] == 2 + m[1] % 2);
        assert(inv@[m[2] / 2] == 4 + m[2] % 2);
        assert(inv@[m[3] / 2] == 6 + m[3] % 2);
        Self::lemma_ident();
        Self::lemma_mul(a, inv);
        Self::lemma_mul(inv, a);
        assert(a.spec_mul(inv)@ =~= ident_cols());
        assert(inv.spec_mul(a)@ =~= ident_cols());
        Self::lemma_ext(a.spec_mul(inv), Self::spec_ident());
        Self::lemma_ext(inv.spec_mul(a), Self::spec_ident());
    }

    /// Powers add: `m^(a + b) == m^a * m^b`.
    pub proof fn lemma_pow_add(m: Mat4, a: nat, b: nat)
        requires
            m.wf(),
        ensures
            m.spec_pow(a + b) == m.spec_pow(a).spec_mul(m.spec_pow(b)),
            m.spec_pow(a).wf(),
        decreases b,
    {
        Self::lemma_pow_wf(m, a);
        if b == 0 {
            Self::lemma_mul_ident(m.spec_pow(a));
            assert(a + b == a);
        } else {
            Self::lemma_pow_add(m, a, (b - 1) as nat);
            assert((a + b - 1) as nat == a + (b - 1) as nat);
            Self::lemma_mul_assoc(m.spec_pow(a), m.spec_pow((b - 1) as nat), m);
        }
    }

    /// Every power is a well-formed matrix.
    pub proof fn lemma_pow_wf(m: Mat4, n: nat)
        requires
            m.wf(),
        ensures
            m.spec_pow(n).wf(),
        decreases n,
    {
        if n == 0 {
            Self::lemma_ident();
        } else {
            Self::lemma_mul(m.spec_pow((n - 1) as nat), m);
        }
    }

    /// Rotation matrices.
    pub proof fn lemma_rot(ax1: Axis, ax2: Axis)
        ensures
            Self::spec_rot(ax1, ax2)@ == ident_cols().update(ax2.idx(), 2 * ax1.idx() + 1).update(
                ax1.idx(),
                2 * ax2.idx(),
            ),
            Self::spec_rot(ax1, ax2).wf(),
            Self::spec_rot(ax1, ax2).apply_idx(2 * ax1.idx()) == 2 * ax2.idx(),
            ax1 != ax2 ==> Self::spec_rot(ax1, ax2).apply_idx(2 * ax2.idx()) == 2 * ax1.idx() + 1,
            Self::spec_rot(ax1, ax2).is_perm(),
    {
        let s = ident_cols().update(ax2.idx(), 2 * ax1.idx() + 1).update(ax1.idx(), 2 * ax2.idx());
        assert(valid_cols(s));
        Self::lemma_from_cols(s);
    }

    /// Reflection matrices.
    pub proof fn lemma_refl(axis: Axis)
        ensures
            Self::spec_refl(axis)@ == ident_cols().update(axis.idx(), 2 * axis.idx() + 1),
            Self::spec_refl(axis).wf(),
            Self::spec_refl(axis).apply_idx(2 * axis.idx()) == 2 * axis.idx() + 1,
            Self::spec_refl(axis).apply_idx(2 * axis.idx() + 1) == 2 * axis.idx(),
            Self::spec_refl(axis).is_perm(),
    {
        let s = ident_cols().update(axis.idx(), 2 * axis.idx() + 1);
        assert(valid_cols(s));
        Self::lemma_from_cols(s);
    }
}


impl Default for Mat4 {
    /// The matrix whose columns are all `R`.
    fn default() -> (r: Mat4)
        ensures
            r@ == seq![0int, 0int, 0int, 0int],
    {
        proof {
            lemma_unpack_pack(seq![0int, 0int, 0int, 0int]);
        }
        Mat4(0)
    }
}

impl Mat4 {
    /// Constructs a matrix from its packed bits.
    pub(crate) fn from_bits(b: u16) -> (r: Mat4)
        requires
            b < 4096,
        ensures
            r == Self::spec_from_bits(b as int),
            r.bits() == b,
    {
        Mat4(b)
    }

    /// Returns the packed bits.
    pub(crate) fn to_bits(self) -> (r: u16)
        ensures
            r == self.bits(),
            r < 4096,
    {
        proof {
            use_type_invariant(&self);
        }
        self.0
    }

    /// The identity matrix.
    pub fn ident() -> (r: Mat4)
        ensures
            r == Self::spec_ident(),
            r@ == ident_cols(),
    {
        proof {
            Self::lemma_ident();
            lemma_pack_bits(0, 2, 4, 6);
        }
        Mat4(0 | (2 << 3) | (4 << 6) | (6 << 9))
    }

    /// Constructs a matrix from columns.
    pub fn from_cols(columns: [Facet; 4]) -> (r: Mat4)
        ensures
            r@ == seq![columns[0].idx(), columns[1].idx(), columns[2].idx(), columns[3].idx()],
            r == Self::spec_from_cols(r@),
    {
        let c0 = columns[0].to_u8() as u16;
        let c1 = columns[1].to_u8() as u16;
        let c2 = columns[2].to_u8() as u16;
        let c3 = columns[3].to_u8() as u16;
        proof {
            lemma_pack_bits(c0, c1, c2, c3);
            Self::lemma_from_cols(seq![c0 as int, c1 as int, c2 as int, c3 as int]);
        }
        Mat4(c0 | (c1 << 3) | (c2 << 6) | (c3 << 9))
    }

    /// Returns a column of the matrix, as the facet that holds the position
    /// of its nonzero entry and its sign.
    pub fn col(self, column: Axis) -> (r: Facet)
        ensures
            r.idx() == self@[column.idx()],
    {
        proof {
            lemma_shift_col(self.0);
        }
        let m = self.0;
        let bits = match column {
            Axis::X => m & 7,
            Axis::Y => (m >> 3) & 7,
            Axis::Z => (m >> 6) & 7,
            Axis::W => (m >> 9) & 7,
        };
        Facet::from_u8(bits as u8)
    }

    /// Returns the matrix with one column replaced.
    pub fn set_col(self, column: Axis, new_value: Facet) -> (r: Mat4)
        ensures
            r@ == self@.update(column.idx(), new_value.idx()),
    {
        proof {
            use_type_invariant(&self);
        }
        let m = self.0;
        let v = new_value.to_u8() as u16;
        let bits = match column {
            Axis::X => (m & !7u16) | v,
            Axis::Y => (m & !(7u16 << 3)) | (v << 3),
            Axis::Z => (m & !(7u16 << 6)) | (v << 6),
            Axis::W => (m & !(7u16 << 9)) | (v << 9),
        };
        proof {
            lemma_set_bits(m, v, bits, column.idx());
        }
        let r = Mat4(bits);
        assert(r@ =~= self@.update(column.idx(), new_value.idx()));
        r
    }

    /// Returns the matrix with one column negated.
    pub fn negate_col(self, column: Axis) -> (r: Mat4)
        ensures
            r@ == self@.update(column.idx(), opposite_idx(self@[column.idx()])),
    {
        proof {
            use_type_invariant(&self);
        }
        let m = self.0;
        let bits = match column {
            Axis::X => m ^ 1,
            Axis::Y => m ^ (1u16 << 3),
            Axis::Z => m ^ (1u16 << 6),
            Axis::W => m ^ (1u16 << 9),
        };
        proof {
            lemma_negate_bits(m, bits, column.idx());
        }
        let r = Mat4(bits);
        assert(r@ =~= self@.update(column.idx(), opposite_idx(self@[column.idx()])));
        r
    }

    /// Constructs the rotation matrix from `ax1` to `ax2`; the identity if
    /// `ax1 == ax2`.
    pub fn rot(ax1: Axis, ax2: Axis) -> (r: Mat4)
        ensures
            r == Self::spec_rot(ax1, ax2),
    {
        let r = Self::ident().set_col(ax2, Facet::new(ax1, Sign::Neg)).set_col(
            ax1,
            Facet::new(ax2, Sign::Pos),
        );
        proof {
            Self::lemma_rot(ax1, ax2);
            use_type_invariant(&r);
            Self::lemma_ext(r, Self::spec_rot(ax1, ax2));
        }
        r
    }

    /// Constructs the 180-degree rotation in the plane spanned by `ax1` and
    /// `ax2`; the identity if `ax1 == ax2`.
    pub fn rot180(ax1: Axis, ax2: Axis) -> (r: Mat4)
        ensures
            r == Self::spec_rot180(ax1, ax2),
            r.is_perm(),
    {
        let r = Self::ident().negate_col(ax1).negate_col(ax2);
        proof {
            let s1 = ident_cols().update(ax1.idx(), 2 * ax1.idx() + 1);
            let s = s1.update(ax2.idx(), opposite_idx(s1[ax2.idx()]));
            assert(valid_cols(s));
            Self::lemma_from_cols(s);
            use_type_invariant(&r);
            Self::lemma_ext(r, Self::spec_rot180(ax1, ax2));
        }
        r
    }

    /// Constructs the reflection through `axis`.
    pub fn refl(axis: Axis) -> (r: Mat4)
        ensures
            r == Self::spec_refl(axis),
    {
        let r = Self::ident().negate_col(axis);
        proof {
            Self::lemma_refl(axis);
            use_type_invariant(&r);
            Self::lemma_ext(r, Self::spec_refl(axis));
        }
        r
    }

    /// Returns the facet that a facet is taken to by the matrix.
    pub fn mul_facet(self, rhs: Facet) -> (r: Facet)
        ensures
            r.idx() == self.apply_idx(rhs.idx()),
    {
        self.col(rhs.axis()).mul_sign(rhs.sign())
    }

    /// Returns the matrix product `self * rhs`.
    pub fn mul(self, rhs: Mat4) -> (r: Mat4)
        ensures
            r == self.spec_mul(rhs),
    {
        let c0 = self.mul_facet(rhs.col(Axis::X));
        let c1 = self.mul_facet(rhs.col(Axis::Y));
        let c2 = self.mul_facet(rhs.col(Axis::Z));
        let c3 = self.mul_facet(rhs.col(Axis::W));
        let r = Self::from_cols([c0, c1, c2, c3]);
        proof {
            Self::lemma_mul(self, rhs);
            use_type_invariant(&r);
            Self::lemma_ext(r, self.spec_mul(rhs));
        }
        r
    }

    /// Returns the inverse matrix (for a signed permutation matrix; see
    /// [`Self::lemma_inv`]).
    #[verifier::spinoff_prover]
    #[verifier::rlimit(80)]
    pub fn inv(self) -> (r: Mat4)
        ensures
            r == self.spec_inv(),
    {
        let mut ret = Self::ident();
        let f0 = self.col(Axis::X);
        ret = ret.set_col(f0.axis(), Facet::new(Axis::X, f0.sign()));
        let f1 = self.col(Axis::Y);
        ret = ret.set_col(f1.axis(), Facet::new(Axis::Y, f1.sign()));
        let f2 = self.col(Axis::Z);
        ret = ret.set_col(f2.axis(), Facet::new(Axis::Z, f2.sign()));
        let f3 = self.col(Axis::W);
        ret = ret.set_col(f3.axis(), Facet::new(Axis::W, f3.sign()));
        proof {
            self.lemma_view();
            let m = self@;
            let s = ident_cols().update(m[0] / 2, 0 + m[0] % 2).update(m[1] / 2, 2 + m[1] % 2).update(
                m[2] / 2,
                4 + m[2] % 2,
            ).update(m[3] / 2, 6 + m[3] % 2);
            assert(valid_cols(s));
            Self::lemma_from_cols(s);
            assert(ret@ =~= s);
            use_type_invariant(&ret);
            Self::lemma_ext(ret, self.spec_inv());
        }
        ret
    }

    /// Returns the transpose of a signed permutation matrix, which is its
    /// inverse.
    pub fn t(self) -> (r: Mat4)
        requires
            self.is_perm(),
        ensures
            r == self.spec_inv(),
            self.wf() ==> r.is_perm(),
    {
        proof {
            use_type_invariant(&self);
            Self::lemma_inv(self);
        }
        self.inv()
    }

    /// Returns a row of a signed permutation matrix, as the facet that holds
    /// the position of its nonzero entry and its sign.
    pub fn row(self, row: Axis) -> (r: Facet)
        requires
            self.is_perm(),
        ensures
            r.idx() == self.spec_inv()@[row.idx()],
    {
        self.t().col(row)
    }

    /// Constructs a signed permutation matrix from its rows.
    pub fn from_rows(rows: [Facet; 4]) -> (r: Mat4)
        requires
            Self::spec_from_cols(seq![rows[0].idx(), rows[1].idx(), rows[2].idx(), rows[3].idx()]).is_perm(),
        ensures
            r == Self::spec_from_cols(seq![rows[0].idx(), rows[1].idx(), rows[2].idx(), rows[3].idx()]).spec_inv(),
    {
        Self::from_cols(rows).t()
    }

    /// Raises the matrix to a power; a negative power raises the inverse.
    pub fn pow(self, power: i8) -> (r: Mat4)
        requires
            power != i8::MIN,
        ensures
            power >= 0 ==> r == self.spec_pow(power as nat),
            power < 0 ==> r == self.spec_inv().spec_pow((-power) as nat),
        decreases (if power < 0 { 200 } else { power as int }),
    {
        if power == 0 {
            return Self::ident();
        }
        if power < 0 {
            return self.inv().pow(-power);
        }
        let p = power as u8;
        let half = (p / 2) as i8;
        let init = self.pow(half);
        let squared = init.mul(init);
        proof {
            use_type_invariant(&self);
            Self::lemma_pow_add(self, half as nat, half as nat);
        }
        if p % 2 == 0 {
            assert(half + half == power);
            squared
        } else {
            assert(half + half + 1 == power);
            proof {
                assert((half + half + 1) as nat - 1 == (half + half) as nat);
            }
            squared.mul(self)
        }
    }

    /// Returns the determinant of the matrix: `1` or `-1` for a signed
    /// permutation matrix, `0` for a matrix whose columns repeat an axis.
    pub fn det(self) -> (r: i8)
        ensures
            r == self.spec_det(),
    {
        let a0 = self.col(Axis::X).to_u8();
        let a1 = self.col(Axis::Y).to_u8();
        let a2 = self.col(Axis::Z).to_u8();
        let a3 = self.col(Axis::W).to_u8();
        let (x0, x1, x2, x3) = (a0 / 2, a1 / 2, a2 / 2, a3 / 2);
        if x0 == x1 || x0 == x2 || x0 == x3 || x1 == x2 || x1 == x3 || x2 == x3 {
            return 0;
        }
        let inversions = (if x0 > x1 { 1u8 } else { 0 }) + (if x0 > x2 { 1u8 } else { 0 }) + (if x0 > x3 { 1u8 } else { 0 })
            + (if x1 > x2 { 1u8 } else { 0 }) + (if x1 > x3 { 1u8 } else { 0 }) + (if x2 > x3 { 1u8 } else { 0 });
        let negatives = a0 % 2 + a1 % 2 + a2 % 2 + a3 % 2;
        if (inversions + negatives) % 2 == 0 {
            1
        } else {
            -1
        }
    }

    /// Returns `m * self * m⁻¹`.
    pub fn transform_by(self, m: Mat4) -> (r: Mat4)
        ensures
            r == self.spec_transform_by(m),
    {
        m.mul(self).mul(m.inv())
    }

    /// Returns the product of the matrix and a vector.
    ///
    /// Column `c` puts the component `c` of `v`, times the column's sign, at
    /// the column's axis; later columns overwrite earlier ones on the same
    /// axis.
    pub fn mul_vec(self, v: Vec4) -> (r: Vec4)
        requires
            forall|c: int| 0 <= c < 4 ==> v.comp(c) != i8::MIN,
        ensures
            r.0@ == self.spec_mul_vec(v),
            r == self.spec_apply(v),
    {
        assert(v.comp(0) != i8::MIN && v.comp(1) != i8::MIN && v.comp(2) != i8::MIN && v.comp(3) != i8::MIN);
        let ghost m = self@;
        let ghost s0 = seq![0i8, 0i8, 0i8, 0i8];
        let ghost s1 = s0.update(m[0] / 2, (sign_of_idx(m[0]).val() * v.0[0]) as i8);
        let ghost s2 = s1.update(m[1] / 2, (sign_of_idx(m[1]).val() * v.0[1]) as i8);
        let ghost s3 = s2.update(m[2] / 2, (sign_of_idx(m[2]).val() * v.0[2]) as i8);
        let mut ret = Vec4::zero();
        assert(ret.0@ =~= s0);
        let f0 = self.col(Axis::X);
        ret = ret.with(f0.axis(), f0.sign().apply(v.0[0]));
        assert(ret.0@ =~= s1);
        let f1 = self.col(Axis::Y);
        ret = ret.with(f1.axis(), f1.sign().apply(v.0[1]));
        assert(ret.0@ =~= s2);
        let f2 = self.col(Axis::Z);
        ret = ret.with(f2.axis(), f2.sign().apply(v.0[2]));
        assert(ret.0@ =~= s3);
        let f3 = self.col(Axis::W);
        ret = ret.with(f3.axis(), f3.sign().apply(v.0[3]));
        assert(ret.0@ =~= self.spec_mul_vec(v));
        assert(ret.0 =~= self.spec_apply(v).0);
        ret
    }

    /// The product of the matrix and a vector, as a vector.
    pub open spec fn spec_apply(self, v: Vec4) -> Vec4 {
        let s = self.spec_mul_vec(v);
        Vec4([s[0], s[1], s[2], s[3]])
    }

    /// The product of the matrix and a vector.
    pub open spec fn spec_mul_vec(self, v: Vec4) -> Seq<i8> {
        let m = self@;
        let s0 = seq![0i8, 0i8, 0i8, 0i8];
        let s1 = s0.update(m[0] / 2, (sign_of_idx(m[0]).val() * v.0[0]) as i8);
        let s2 = s1.update(m[1] / 2, (sign_of_idx(m[1]).val() * v.0[1]) as i8);
        let s3 = s2.update(m[2] / 2, (sign_of_idx(m[2]).val() * v.0[2]) as i8);
        s3.update(m[3] / 2, (sign_of_idx(m[3]).val() * v.0[3]) as i8)
    }
}

proof fn lemma_set_bits(m: u16, v: u16, bits: u16, c: int)
    requires
        m < 4096,
        v < 8,
        0 <= c < 4,
        c == 0 ==> bits == (m & !7u16) | v,
        c == 1 ==> bits == (m & !(7u16 << 3)) | (v << 3),
        c == 2 ==> bits == (m & !(7u16 << 6)) | (v << 6),
        c == 3 ==> bits == (m & !(7u16 << 9)) | (v << 9),
    ensures
        bits < 4096,
        forall|k: int| 0 <= k < 4 ==> #[trigger] unpack(bits as int, k) == (if k == c { v as int } else { unpack(m as int, k) }),
{
    lemma_shift_col(m);
    lemma_shift_col(bits);
    let ghost cc: u16 = c as u16;
    assert(bits < 4096
        && (cc == 0 ==> bits & 7 == v && (bits >> 3) & 7 == (m >> 3) & 7 && (bits >> 6) & 7 == (m >> 6) & 7 && (bits >> 9) & 7 == (m >> 9) & 7)
        && (cc == 1 ==> bits & 7 == m & 7 && (bits >> 3) & 7 == v && (bits >> 6) & 7 == (m >> 6) & 7 && (bits >> 9) & 7 == (m >> 9) & 7)
        && (cc == 2 ==> bits & 7 == m & 7 && (bits >> 3) & 7 == (m >> 3) & 7 && (bits >> 6) & 7 == v && (bits >> 9) & 7 == (m >> 9) & 7)
        && (cc == 3 ==> bits & 7 == m & 7 && (bits >> 3) & 7 == (m >> 3) & 7 && (bits >> 6) & 7 == (m >> 6) & 7 && (bits >> 9) & 7 == v)) by (bit_vector)
        requires
            m < 4096,
            v < 8,
            cc < 4,
            cc == 0 ==> bits == (m & !7u16) | v,
            cc == 1 ==> bits == (m & !(7u16 << 3)) | (v << 3),
            cc == 2 ==> bits == (m & !(7u16 << 6)) | (v << 6),
            cc == 3 ==> bits == (m & !(7u16 << 9)) | (v << 9),
    ;
}

proof fn lemma_negate_bits(m: u16, bits: u16, c: int)
    requires
        m < 4096,
        0 <= c < 4,
        c == 0 ==> bits == m ^ 1,
        c == 1 ==> bits == m ^ (1u16 << 3),
        c == 2 ==> bits == m ^ (1u16 << 6),
        c == 3 ==> bits == m ^ (1u16 << 9),
    ensures
        bits < 4096,
        forall|k: int| 0 <= k < 4 ==> #[trigger] unpack(bits as int, k) == (if k == c { opposite_idx(unpack(m as int, k)) } else { unpack(m as int, k) }),
{
    lemma_shift_col(m);
    lemma_shift_col(bits);
    let ghost c0 = m & 7;
    let ghost c1 = (m >> 3) & 7;
    let ghost c2 = (m >> 6) & 7;
    let ghost c3 = (m >> 9) & 7;
    let ghost cc: u16 = c as u16;
    assert(bits < 4096
        && (cc == 0 ==> bits & 7 == c0 ^ 1 && (bits >> 3) & 7 == c1 && (bits >> 6) & 7 == c2 && (bits >> 9) & 7 == c3)
        && (cc == 1 ==> bits & 7 == c0 && (bits >> 3) & 7 == c1 ^ 1 && (bits >> 6) & 7 == c2 && (bits >> 9) & 7 == c3)
        && (cc == 2 ==> bits & 7 == c0 && (bits >> 3) & 7 == c1 && (bits >> 6) & 7 == c2 ^ 1 && (bits >> 9) & 7 == c3)
        && (cc == 3 ==> bits & 7 == c0 && (bits >> 3) & 7 == c1 && (bits >> 6) & 7 == c2 && (bits >> 9) & 7 == c3 ^ 1)) by (bit_vector)
        requires
            m < 4096,
            cc < 4,
            cc == 0 ==> bits == m ^ 1,
            cc == 1 ==> bits == m ^ (1u16 << 3),
            cc == 2 ==> bits == m ^ (1u16 << 6),
            cc == 3 ==> bits == m ^ (1u16 << 9),
            c0 == m & 7,
            c1 == (m >> 3) & 7,
            c2 == (m >> 6) & 7,
            c3 == (m >> 9) & 7,
    ;
    if c == 0 {
        lemma_xor1(c0);
    } else if c == 1 {
        lemma_xor1(c1);
    } else if c == 2 {
        lemma_xor1(c2);
    } else {
        lemma_xor1(c3);
    }
}

proof fn lemma_xor1(c: u16)
    requires
        c < 8,
    ensures
        c ^ 1 == opposite_idx(c as int),
{
    assert(c ^ 1 == (if c % 2 == 0 { c + 1 } else { c - 1 })) by (bit_vector)
        requires
            c < 8,
    ;
}

/// The product applies the right factor first.
pub proof fn lemma_apply_mul(a: Mat4, b: Mat4, f: int)
    requires
        0 <= f < 8,
    ensures
        a.spec_mul(b).apply_idx(f) == a.apply_idx(b.apply_idx(f)),
        0 <= a.apply_idx(f) < 8,
{
    Mat4::lemma_mul(a, b);
    lemma_apply_range(a, f);
}

/// The inverse of a signed permutation matrix undoes it on facets.
pub proof fn lemma_apply_inv(m: Mat4, f: int)
    requires
        0 <= f < 8,
        m.wf(),
        m.is_perm(),
    ensures
        m.spec_inv().apply_idx(m.apply_idx(f)) == f,
        m.apply_idx(m.spec_inv().apply_idx(f)) == f,
{
    Mat4::lemma_inv(m);
    Mat4::lemma_ident();
    lemma_apply_mul(m.spec_inv(), m, f);
    lemma_apply_mul(m, m.spec_inv(), f);
}

/// A matrix takes facet numbers to facet numbers.
pub proof fn lemma_apply_range(a: Mat4, f: int)
    requires
        0 <= f < 8,
    ensures
        0 <= a.apply_idx(f) < 8,
{
    a.lemma_view();
    assert(0 <= a@[f / 2] < 8);
}

/// Applying a matrix commutes with flipping the sign.
pub proof fn lemma_apply_flip(a: Mat4, h: int, s: int)
    requires
        0 <= h < 8,
        0 <= s < 2,
    ensures
        a.apply_idx(flip_if(h, s)) == flip_if(a.apply_idx(h), s),
{
    a.lemma_view();
    assert(0 <= a@[h / 2] < 8);
}

/// A signed permutation matrix puts component `c` of a vector, times the sign
/// of column `c`, on the axis of column `c`.
pub proof fn lemma_apply_perm(m: Mat4, v: Vec4)
    requires
        m.is_perm(),
        forall|c: int| 0 <= c < 4 ==> -128 < #[trigger] v.comp(c),
    ensures
        forall|c: int|
            0 <= c < 4 ==> #[trigger] m.spec_apply(v).0[m@[c] / 2] == sign_of_idx(m@[c]).val()
                * v.comp(c),
{
    m.lemma_view();
    let s = m.spec_mul_vec(v);
    assert(s.len() == 4);
    assert forall|c: int| 0 <= c < 4 implies #[trigger] m.spec_apply(v).0[m@[c] / 2]
        == sign_of_idx(m@[c]).val() * v.comp(c) by {
        assert(m.spec_apply(v).0[m@[c] / 2] == s[m@[c] / 2]);
    }
}

/// Every axis is the axis of one column of a signed permutation matrix.
pub proof fn lemma_perm_onto(m: Mat4, p: int)
    requires
        m.is_perm(),
        0 <= p < 4,
    ensures
        exists|c: int| 0 <= c < 4 && #[trigger] m@[c] / 2 == p,
{
    m.lemma_view();
    assert(0 <= m@[0] < 8 && 0 <= m@[1] < 8 && 0 <= m@[2] < 8 && 0 <= m@[3] < 8);
    if m@[0] / 2 != p && m@[1] / 2 != p && m@[2] / 2 != p {
        assert(m@[3] / 2 == p);
    }
}

/// The product of two signed permutation matrices is one.
#[verifier::spinoff_prover]
#[verifier::rlimit(60)]
pub proof fn lemma_mul_perm(a: Mat4, b: Mat4)
    requires
        a.is_perm(),
        b.is_perm(),
    ensures
        a.spec_mul(b).is_perm(),
        a.spec_mul(b).wf(),
{
    Mat4::lemma_mul(a, b);
    a.lemma_view();
    b.lemma_view();
    let m = a.spec_mul(b)@;
    assert forall|c: int| 0 <= c < 4 implies #[trigger] m[c] / 2 == a@[b@[c] / 2] / 2 by {
        lemma_apply_flip(a, b@[c], 0);
        assert(0 <= b@[c] < 8);
        assert(0 <= a@[b@[c] / 2] < 8);
    }
    assert(m[0] / 2 == a@[b@[0] / 2] / 2);
    assert(m[1] / 2 == a@[b@[1] / 2] / 2);
    assert(m[2] / 2 == a@[b@[2] / 2] / 2);
    assert(m[3] / 2 == a@[b@[3] / 2] / 2);
}

/// A signed permutation matrix takes the cube of piece positions to itself.
pub proof fn lemma_apply_in_cube(m: Mat4, v: Vec4)
    requires
        m.is_perm(),
        v.in_cube(),
    ensures
        m.spec_apply(v).in_cube(),
{
    lemma_apply_perm(m, v);
    assert forall|p: int| 0 <= p < 4 implies -1 <= #[trigger] m.spec_apply(v).0[p] <= 1 by {
        lemma_perm_onto(m, p);
        let c = choose|c: int| 0 <= c < 4 && #[trigger] m@[c] / 2 == p;
        assert(c == 0 || c == 1 || c == 2 || c == 3);
        let x = v.comp(c) as int;
        let sg = sign_of_idx(m@[c]).val();
        assert(-1 <= x <= 1);
        assert(sg == 1 || sg == -1);
        assert(-1 <= sg * x <= 1) by (nonlinear_arith)
            requires
                -1 <= x <= 1,
                sg == 1 || sg == -1,
        ;
        assert(m.spec_apply(v).0[m@[c] / 2] == sg * x);
    }
}

#[verifier::spinoff_prover]
#[verifier::rlimit(60)]
proof fn lemma_apply_mul_col(a: Mat4, b: Mat4, v: Vec4, c: int)
    requires
        a.is_perm(),
        b.is_perm(),
        v.in_cube(),
        b.spec_apply(v).in_cube(),
        0 <= c < 4,
    ensures
        a.spec_mul(b).spec_apply(v).0[a.spec_mul(b)@[c] / 2] == a.spec_apply(b.spec_apply(v)).0[a.spec_mul(b)@[c] / 2],
{
    lemma_mul_perm(a, b);
    Mat4::lemma_mul(a, b);
    a.lemma_view();
    b.lemma_view();
    let ab = a.spec_mul(b);
    let w = b.spec_apply(v);
    lemma_apply_perm(b, v);
    lemma_apply_perm(a, w);
    lemma_apply_perm(ab, v);
    let d = b@[c] / 2;
    assert(0 <= b@[c] < 8);
    assert(0 <= a@[d] < 8);
    assert(ab@[c] == flip_if(a@[d], b@[c] % 2));
    assert(ab.spec_apply(v).0[ab@[c] / 2] == sign_of_idx(ab@[c]).val() * v.comp(c));
    assert(w.0[b@[c] / 2] == sign_of_idx(b@[c]).val() * v.comp(c));
    assert(a.spec_apply(w).0[a@[d] / 2] == sign_of_idx(a@[d]).val() * w.comp(d));
    assert(ab@[c] / 2 == a@[d] / 2);
    assert(sign_of_idx(ab@[c]).val() == sign_of_idx(a@[d]).val() * sign_of_idx(b@[c]).val());
    assert(w.comp(d) == sign_of_idx(b@[c]).val() * v.comp(c));
    let x = v.comp(c) as int;
    let sa = sign_of_idx(a@[d]).val();
    let sb = sign_of_idx(b@[c]).val();
    assert(sa * (sb * x) == (sa * sb) * x) by (nonlinear_arith);
}

/// Applying a product of signed permutation matrices applies the right factor
/// first.
pub proof fn lemma_apply_mul_perm(a: Mat4, b: Mat4, v: Vec4)
    requires
        a.is_perm(),
        b.is_perm(),
        v.in_cube(),
    ensures
        a.spec_mul(b).spec_apply(v) == a.spec_apply(b.spec_apply(v)),
        a.spec_apply(v).in_cube(),
{
    lemma_mul_perm(a, b);
    let ab = a.spec_mul(b);
    let w = b.spec_apply(v);
    lemma_apply_in_cube(b, v);
    lemma_apply_in_cube(a, v);
    assert forall|p: int| 0 <= p < 4 implies #[trigger] ab.spec_apply(v).0[p] == a.spec_apply(w).0[p] by {
        lemma_perm_onto(ab, p);
        let c = choose|c: int| 0 <= c < 4 && #[trigger] ab@[c] / 2 == p;
        lemma_apply_mul_col(a, b, v, c);
    }
    assert(ab.spec_apply(v).0 =~= a.spec_apply(w).0);
}

/// The identity leaves a vector unchanged.
pub proof fn lemma_apply_ident(v: Vec4)
    requires
        v.in_cube(),
    ensures
        Mat4::spec_ident().spec_apply(v) == v,
{
    Mat4::lemma_ident();
    lemma_apply_perm(Mat4::spec_ident(), v);
    let i = Mat4::spec_ident();
    assert(i@[0] == 0 && i@[1] == 2 && i@[2] == 4 && i@[3] == 6);
    assert(sign_of_idx(0).val() == 1 && sign_of_idx(2).val() == 1 && sign_of_idx(4).val() == 1
        && sign_of_idx(6).val() == 1);
    assert(1 * v.comp(0) == v.comp(0) && 1 * v.comp(1) == v.comp(1) && 1 * v.comp(2) == v.comp(2)
        && 1 * v.comp(3) == v.comp(3));
    assert(i.spec_apply(v).0[i@[0] / 2] == v.comp(0));
    assert(i.spec_apply(v).0[i@[1] / 2] == v.comp(1));
    assert(i.spec_apply(v).0[i@[2] / 2] == v.comp(2));
    assert(i.spec_apply(v).0[i@[3] / 2] == v.comp(3));
    assert(i.spec_apply(v).0 =~= v.0);
}

/// A signed permutation matrix and its inverse undo each other on vectors.
pub proof fn lemma_apply_inv_vec(m: Mat4, v: Vec4)
    requires
        m.wf(),
        m.is_perm(),
        v.in_cube(),
    ensures
        m.spec_apply(m.spec_inv().spec_apply(v)) == v,
        m.spec_inv().spec_apply(m.spec_apply(v)) == v,
        m.spec_apply(v).in_cube(),
        m.spec_inv().spec_apply(v).in_cube(),
{
    Mat4::lemma_inv(m);
    lemma_apply_mul_perm(m, m.spec_inv(), v);
    lemma_apply_mul_perm(m.spec_inv(), m, v);
    lemma_apply_ident(v);
}

/// Any matrix takes the cube of piece positions into itself.
pub proof fn lemma_apply_any_in_cube(m: Mat4, v: Vec4)
    requires
        v.in_cube(),
    ensures
        m.spec_apply(v).in_cube(),
{
    m.lemma_view();
    let c = m@;
    let s0 = seq![0i8, 0i8, 0i8, 0i8];
    let s1 = s0.update(c[0] / 2, (sign_of_idx(c[0]).val() * v.0[0]) as i8);
    let s2 = s1.update(c[1] / 2, (sign_of_idx(c[1]).val() * v.0[1]) as i8);
    let s3 = s2.update(c[2] / 2, (sign_of_idx(c[2]).val() * v.0[2]) as i8);
    let s4 = s3.update(c[3] / 2, (sign_of_idx(c[3]).val() * v.0[3]) as i8);
    assert(s4 == m.spec_mul_vec(v));
    lemma_sign_times(c[0], v.0[0] as int);
    lemma_sign_times(c[1], v.0[1] as int);
    lemma_sign_times(c[2], v.0[2] as int);
    lemma_sign_times(c[3], v.0[3] as int);
    assert(forall|i: int| 0 <= i < 4 ==> -1 <= #[trigger] s1[i] <= 1);
    assert(forall|i: int| 0 <= i < 4 ==> -1 <= #[trigger] s2[i] <= 1);
    assert(forall|i: int| 0 <= i < 4 ==> -1 <= #[trigger] s3[i] <= 1);
    assert(forall|i: int| 0 <= i < 4 ==> -1 <= #[trigger] s4[i] <= 1);
    assert(-1 <= s4[0] <= 1 && -1 <= s4[1] <= 1 && -1 <= s4[2] <= 1 && -1 <= s4[3] <= 1);
}

proof fn lemma_sign_times(f: int, x: int)
    requires
        -1 <= x <= 1,
    ensures
        -1 <= sign_of_idx(f).val() * x <= 1,
        -1 <= (sign_of_idx(f).val() * x) as i8 <= 1,
        (sign_of_idx(f).val() * x) as i8 == sign_of_idx(f).val() * x,
{
    if f % 2 == 0 {
        assert(sign_of_idx(f).val() * x == x);
    } else {
        assert(sign_of_idx(f).val() == -1);
        assert(-1 * x == -x);
    }
}

/// Values that a signed permutation matrix can transform.
pub trait TransformByMat4: Sized {
    /// Whether `self` can be transformed by `m`.
    spec fn can_transform_by(&self, m: Mat4) -> bool;

    /// Whether `r` is `self` transformed by `m`.
    spec fn transformed_by(&self, m: Mat4, r: Self) -> bool;

    /// Transforms `self` by the matrix `m`.
    fn transform_by(&self, m: Mat4) -> (r: Self)
        requires
            self.can_transform_by(m),
        ensures
            self.transformed_by(m, r),
    ;
}

/// `m * self`
impl TransformByMat4 for Vec4 {
    open spec fn can_transform_by(&self, m: Mat4) -> bool {
        forall|c: int| 0 <= c < 4 ==> self.comp(c) != i8::MIN
    }

    open spec fn transformed_by(&self, m: Mat4, r: Vec4) -> bool {
        r == m.spec_apply(*self)
    }

    fn transform_by(&self, m: Mat4) -> (r: Vec4) {
        m.mul_vec(*self)
    }
}

/// `m * self * m⁻¹`
impl TransformByMat4 for Mat4 {
    open spec fn can_transform_by(&self, m: Mat4) -> bool {
        true
    }

    open spec fn transformed_by(&self, m: Mat4, r: Mat4) -> bool {
        r == self.spec_transform_by(m)
    }

    fn transform_by(&self, m: Mat4) -> (r: Mat4) {
        Mat4::transform_by(*self, m)
    }
}

/// The axis that `m` takes the axis to.
impl TransformByMat4 for Axis {
    open spec fn can_transform_by(&self, m: Mat4) -> bool {
        true
    }

    open spec fn transformed_by(&self, m: Mat4, r: Axis) -> bool {
        r.idx() == m@[self.idx()] / 2
    }

    fn transform_by(&self, m: Mat4) -> (r: Axis) {
        Axis::transform_by(*self, m)
    }
}

/// The facet that `m` takes the facet to.
impl TransformByMat4 for Facet {
    open spec fn can_transform_by(&self, m: Mat4) -> bool {
        true
    }

    open spec fn transformed_by(&self, m: Mat4, r: Facet) -> bool {
        r.idx() == m.apply_idx(self.idx())
    }

    fn transform_by(&self, m: Mat4) -> (r: Facet) {
        Facet::transform_by(*self, m)
    }
}

} // verus!
