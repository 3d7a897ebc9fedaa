use vstd::prelude::*;

use crate::linalg::facet::facet_of;
use crate::linalg::mat4::{ident_cols, pack, unpack, valid_cols};
use crate::linalg::{Axis, Facet, Mat4, Vec4};

verus! {

/// Number of distinct twists on the puzzle: 23 nontrivial rotations of each
/// of the 8 facets.
pub const TWIST_COUNT: u8 = 184;

/// The `i`th (in `0..3`) of the three axes perpendicular to axis `a`, in
/// canonical order.
pub open spec fn basis_axis(a: int, i: int) -> int {
    if i == 0 {
        if a > 0 { 0 } else { 1 }
    } else if i == 1 {
        if a > 1 { 1 } else { 2 }
    } else {
        if a > 2 { 2 } else { 3 }
    }
}

/// Entry `i` of the `p`th permutation of three elements, in the order in
/// which twists are enumerated: `[b, c, a]`, `[c, b, a]`, `[a, c, b]`,
/// `[c, a, b]`, `[a, b, c]`, `[b, a, c]`.
pub open spec fn perm_entry(p: int, i: int) -> int {
    let t = if p == 0 {
        (1int, 2int, 0int)
    } else if p == 1 {
        (2int, 1int, 0int)
    } else if p == 2 {
        (0int, 2int, 1int)
    } else if p == 3 {
        (2int, 0int, 1int)
    } else if p == 4 {
        (0int, 1int, 2int)
    } else {
        (1int, 0int, 2int)
    };
    if i == 0 {
        t.0
    } else if i == 1 {
        t.1
    } else {
        t.2
    }
}

/// Whether the `p`th permutation of three elements is odd.
pub open spec fn perm_is_odd(p: int) -> bool {
    p == 1 || p == 2 || p == 5
}

/// The `j`th (in `0..4`) 3-bit sign pattern whose number of set bits has the
/// given parity, in increasing order.
pub open spec fn sign_bits(odd: bool, j: int) -> int {
    if odd {
        if j == 0 { 1 } else if j == 1 { 2 } else if j == 2 { 4 } else { 7 }
    } else {
        if j == 0 { 0 } else if j == 1 { 3 } else if j == 2 { 5 } else { 6 }
    }
}

/// Position, among the 24 proper rotations fixing a facet, of the `k`th
/// twist of that facet: the identity (position 16) is skipped.
pub open spec fn slot_of_rank(k: int) -> int {
    if k >= 16 {
        k + 1
    } else {
        k
    }
}

/// Columns of the rotation of the `k`th (in `0..23`) twist of facet number
/// `f`.
pub open spec fn twist_cols(f: int, k: int) -> Seq<int> {
    let a = f / 2;
    let kk = slot_of_rank(k);
    let p = kk / 4;
    let s = sign_bits(perm_is_odd(p), kk % 4);
    ident_cols().update(basis_axis(a, 0), 2 * basis_axis(a, perm_entry(p, 0)) + s % 2).update(
        basis_axis(a, 1),
        2 * basis_axis(a, perm_entry(p, 1)) + (s / 2) % 2,
    ).update(basis_axis(a, 2), 2 * basis_axis(a, perm_entry(p, 2)) + (s / 4) % 2)
}

/// Packed data of the twist with index `t`: its facet number times 4096
/// plus the bits of its rotation.
pub open spec fn twist_code(t: int) -> int {
    4096 * (t / 23) + pack(twist_cols(t / 23, t % 23))
}

/// Packed twist: bits `0..12` hold the rotation applied to affected pieces,
/// bits `12..15` hold the twisted facet.
#[derive(Debug, Copy, Clone, PartialEq, Eq, Structural, Hash, PartialOrd, Ord)]
pub struct TwistData(pub(crate) u16);

impl TwistData {
    /// The packed bits.
    pub closed spec fn code(self) -> int {
        self.0 as int
    }

    /// Number of the twisted facet.
    pub open spec fn facet_idx(self) -> int {
        self.code() / 4096
    }

    /// Rotation applied to the affected pieces.
    pub open spec fn spec_rot(self) -> Mat4 {
        Mat4::spec_from_bits(self.code() % 4096)
    }

    /// Whether `rot` may be the rotation of a twist of facet number `f`: it
    /// keeps the facet in place and is not the identity.
    pub open spec fn valid_twist(f: int, rot: Mat4) -> bool {
        &&& 0 <= f < 8
        &&& rot.apply_idx(f) == f
        &&& rot != Mat4::spec_ident()
    }

    /// The facet is valid and the rotation keeps it in place and is not the
    /// identity.
    #[verifier::type_invariant]
    pub closed spec fn inv(self) -> bool {
        &&& self.0 < 32768
        &&& Self::valid_twist(self.facet_idx(), self.spec_rot())
    }

    /// Properties that every twist datum has.
    pub proof fn lemma_valid(self)
        requires
            self.inv(),
        ensures
            0 <= self.code() < 32768,
            Self::valid_twist(self.facet_idx(), self.spec_rot()),
            self.spec_rot().wf(),
            self.spec_rot().bits() == self.code() % 4096,
    {
        Mat4::lemma_from_bits(self.code() % 4096);
    }

    /// Twist data are equal exactly when their packed bits are.
    pub proof fn lemma_code_eq(a: TwistData, b: TwistData)
        ensures
            (a.code() == b.code()) <==> (a == b),
    {
    }

    /// Constructs a twist of `facet` applying `rot` to the affected pieces.
    pub fn new(facet: Facet, rot: Mat4) -> (r: TwistData)
        requires
            Self::valid_twist(facet.idx(), rot),
        ensures
            r.facet_idx() == facet.idx(),
            r.spec_rot() == rot,
    {
        let f = facet.to_u8() as u16;
        let b = rot.to_bits();
        proof {
            use_type_invariant(&rot);
            rot.lemma_bits();
            assert((f << 12) | b == 4096 * f + b) by (bit_vector)
                requires
                    f < 8,
                    b < 4096,
            ;
        }
        let r = TwistData((f << 12) | b);
        assert(r.facet_idx() == f as int);
        assert(r.code() % 4096 == b as int);
        r
    }

    /// Returns the facet that is twisted.
    pub fn facet(self) -> (r: Facet)
        ensures
            r.idx() == self.facet_idx(),
    {
        proof {
            use_type_invariant(&self);
            self.lemma_valid();
        }
        let x = self.0;
        assert(x >> 12 == x / 4096) by (bit_vector);
        Facet::from_u8((x >> 12) as u8)
    }

    /// Returns the axis of the facet that is twisted.
    pub fn axis(self) -> (r: Axis)
        ensures
            r.idx() == self.facet_idx() / 2,
    {
        self.facet().axis()
    }

    /// Returns the rotation applied to affected pieces.
    pub fn rot(self) -> (r: Mat4)
        ensures
            r == self.spec_rot(),
    {
        proof {
            use_type_invariant(&self);
            self.lemma_valid();
        }
        let x = self.0;
        assert(x & 0xFFF == x % 4096) by (bit_vector);
        Mat4::from_bits(x & 0xFFF)
    }

    /// Returns whether a point in space is affected by the twist, i.e. lies
    /// on the twisted facet's side of the puzzle.
    pub fn affects(self, v: Vec4) -> (r: bool)
        ensures
            r == (v.at(facet_of(self.facet_idx()).spec_axis()) * facet_of(
                self.facet_idx(),
            ).spec_sign().val() > 0),
    {
        self.facet().has_vector(v)
    }

    /// Returns the twist repeated `multiplier` times (a negative multiplier
    /// repeats the inverse), or `None` if the result is the identity.
    pub fn pow(self, multiplier: i8) -> (r: Option<TwistData>)
        requires
            multiplier != i8::MIN,
            multiplier < 0 ==> self.spec_rot().spec_inv().apply_idx(self.facet_idx())
                == self.facet_idx(),
        ensures
            ({
                let m = if multiplier >= 0 {
                    self.spec_rot().spec_pow(multiplier as nat)
                } else {
                    self.spec_rot().spec_inv().spec_pow((-multiplier) as nat)
                };
                &&& m == Mat4::spec_ident() ==> r is None
                &&& m != Mat4::spec_ident() ==> (r matches Some(d) && d.facet_idx() == self.facet_idx()
                    && d.spec_rot() == m)
            }),
    {
        proof {
            use_type_invariant(&self);
            self.lemma_valid();
        }
        let facet = self.facet();
        let rot = self.rot().pow(multiplier);
        proof {
            if multiplier >= 0 {
                lemma_pow_fixes(self.spec_rot(), self.facet_idx(), multiplier as nat);
            } else {
                lemma_pow_fixes(self.spec_rot().spec_inv(), self.facet_idx(), (-multiplier) as nat);
            }
        }
        if rot == Mat4::ident() {
            None
        } else {
            Some(Self::new(facet, rot))
        }
    }

    /// Returns the twist conjugated by `m`: the twist of `m` applied to the
    /// facet, rotating by `m * rot * m⁻¹`.
    pub fn transform_by(self, m: Mat4) -> (r: TwistData)
        requires
            m.is_perm(),
        ensures
            r.facet_idx() == m.apply_idx(self.facet_idx()),
            r.spec_rot() == self.spec_rot().spec_transform_by(m),
    {
        proof {
            use_type_invariant(&self);
            use_type_invariant(&m);
            self.lemma_valid();
            lemma_conj_twist(self.spec_rot(), m, self.facet_idx());
        }
        let facet = m.mul_facet(self.facet());
        let rot = self.rot().transform_by(m);
        Self::new(facet, rot)
    }
}

/// A power of a matrix that keeps facet number `f` in place keeps it in place.
pub proof fn lemma_pow_fixes(m: Mat4, f: int, n: nat)
    requires
        0 <= f < 8,
        m.apply_idx(f) == f,
    ensures
        m.spec_pow(n).apply_idx(f) == f,
    decreases n,
{
    if n == 0 {
        Mat4::lemma_ident();
    } else {
        lemma_pow_fixes(m, f, (n - 1) as nat);
        Mat4::lemma_mul(m.spec_pow((n - 1) as nat), m);
    }
}

/// Conjugating a twist rotation by a signed permutation matrix gives a twist
/// rotation of the image facet.
pub proof fn lemma_conj_twist(r: Mat4, m: Mat4, f: int)
    requires
        m.wf(),
        r.wf(),
        m.is_perm(),
        TwistData::valid_twist(f, r),
    ensures
        TwistData::valid_twist(m.apply_idx(f), r.spec_transform_by(m)),
{
    let mi = m.spec_inv();
    crate::linalg::mat4::lemma_apply_range(m, f);
    let g = m.apply_idx(f);
    crate::linalg::mat4::lemma_apply_inv(m, f);
    let a = m.spec_mul(r);
    crate::linalg::mat4::lemma_apply_mul(m, r, f);
    crate::linalg::mat4::lemma_apply_mul(a, mi, g);
    if r.spec_transform_by(m) == Mat4::spec_ident() {
        lemma_conj_not_ident(r, m);
    }
}

/// Conjugation by a signed permutation matrix takes only the identity to the
/// identity.
pub proof fn lemma_conj_not_ident(r: Mat4, m: Mat4)
    requires
        m.wf(),
        r.wf(),
        m.is_perm(),
        r.spec_transform_by(m) == Mat4::spec_ident(),
    ensures
        r == Mat4::spec_ident(),
{
    Mat4::lemma_inv(m);
    let mi = m.spec_inv();
    let id = Mat4::spec_ident();
    let a = m.spec_mul(r);
    Mat4::lemma_mul(m, r);
    Mat4::lemma_mul(mi, a);
    Mat4::lemma_ident();
    // mi * (a * mi) * m == mi * m == id
    Mat4::lemma_mul_ident(mi);
    assert(mi.spec_mul(a.spec_mul(mi)).spec_mul(m) == id);
    // mi * (a * mi) == (mi * a) * mi
    Mat4::lemma_mul_assoc(mi, a, mi);
    // ((mi * a) * mi) * m == (mi * a) * (mi * m) == mi * a
    Mat4::lemma_mul_assoc(mi.spec_mul(a), mi, m);
    Mat4::lemma_mul_ident(mi.spec_mul(a));
    // mi * (m * r) == (mi * m) * r == r
    Mat4::lemma_mul_assoc(mi, m, r);
    Mat4::lemma_mul_ident(r);
}

} // verus!
