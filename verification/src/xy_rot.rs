//! Rotations in the XY plane, used to rotate a whole twist sequence.
use vstd::prelude::*;

use crate::linalg::mat4::lemma_apply_mul;
use crate::linalg::{Axis, Mat4};
use crate::puzzle::twist::conjugated;
use crate::puzzle::Twist;

verus! {

/// Rotation in the XY plane by a multiple of 90 degrees.
#[derive(Debug, Default, Copy, Clone, PartialEq, Eq, Structural, Hash)]
pub struct XyRot {
    /// Power of `rot(X, Y)`, always in `0..4`.
    pow: u8,
}

/// `rot(X, Y)` raised to the power `p`.
pub open spec fn xy_mat(p: int) -> Mat4 {
    Mat4::spec_rot(Axis::X, Axis::Y).spec_pow(p as nat)
}

/// Whether `r` is the twist `t` rotated by `rot`: `t` itself for the
/// identity, else `t` conjugated by the rotation's matrix.
pub open spec fn xy_transformed(rot: XyRot, t: Twist, r: Twist) -> bool {
    &&& rot.spec_pow() == 0 ==> r == t
    &&& rot.spec_pow() != 0 ==> conjugated(t, xy_mat(rot.spec_pow()), r)
}

impl XyRot {
    /// The power of `rot(X, Y)`.
    pub closed spec fn spec_pow(self) -> int {
        self.pow as int
    }

    /// The power is in `0..4`.
    #[verifier::type_invariant]
    pub closed spec fn in_range(self) -> bool {
        self.pow < 4
    }

    /// XY rotations are equal exactly when their powers are.
    pub proof fn lemma_eq(a: XyRot, b: XyRot)
        ensures
            (a.spec_pow() == b.spec_pow()) <==> (a == b),
    {
    }

    /// The identity rotation.
    pub fn ident() -> (r: XyRot)
        ensures
            r.spec_pow() == 0,
    {
        XyRot { pow: 0 }
    }

    /// Returns whether this is the identity.
    pub fn is_ident(self) -> (r: bool)
        ensures
            r == (self.spec_pow() == 0),
    {
        self.pow == 0
    }

    /// Returns the inverse rotation.
    pub fn inv(self) -> (r: XyRot)
        ensures
            r.spec_pow() == (4 - self.spec_pow()) % 4,
    {
        proof {
            use_type_invariant(&self);
        }
        XyRot { pow: (4 - self.pow) % 4 }
    }

    /// Returns the matrix of the rotation.
    pub fn mat4(self) -> (r: Mat4)
        ensures
            r == xy_mat(self.spec_pow()),
    {
        proof {
            use_type_invariant(&self);
        }
        Mat4::rot(Axis::X, Axis::Y).pow(self.pow as i8)
    }

    /// Returns the XY rotation whose matrix is `m`.
    pub fn from_mat4(m: Mat4) -> (r: XyRot)
        requires
            exists|p: int| 0 <= p < 4 && xy_mat(p) == m,
        ensures
            xy_mat(r.spec_pow()) == m,
            forall|p: int| 0 <= p < 4 && xy_mat(p) == m ==> r.spec_pow() == p,
    {
        proof {
            law_xy_mats_distinct();
        }
        let mut pow: u8 = 0;
        while pow < 4
            invariant
                0 <= pow <= 4,
                forall|p: int| 0 <= p < pow ==> xy_mat(p) != m,
                exists|p: int| 0 <= p < 4 && xy_mat(p) == m,
                forall|p: int, q: int| 0 <= p < 4 && 0 <= q < 4 && #[trigger] xy_mat(p) == #[trigger] xy_mat(q) ==> p == q,
            decreases 4 - pow,
        {
            let rot = XyRot { pow };
            if rot.mat4() == m {
                return rot;
            }
            pow = pow + 1;
        }
        XyRot { pow: 0 }
    }

    /// Returns the power `p` such that this rotation is `rot(X, Y)^p`; always
    /// less than 4.
    pub fn pow(&self) -> (r: u8)
        ensures
            r == self.spec_pow(),
            r < 4,
    {
        proof {
            use_type_invariant(self);
        }
        self.pow
    }

    /// Constructs an XY rotation from a power (taken modulo 4).
    pub fn from_pow(pow: u8) -> (r: XyRot)
        ensures
            r.spec_pow() == pow % 4,
    {
        XyRot { pow: pow % 4 }
    }

    /// Returns the composition of two rotations.
    pub fn mul(self, rhs: XyRot) -> (r: XyRot)
        ensures
            r.spec_pow() == (self.spec_pow() + rhs.spec_pow()) % 4,
    {
        proof {
            use_type_invariant(&self);
            use_type_invariant(&rhs);
        }
        XyRot { pow: (self.pow + rhs.pow) % 4 }
    }

    /// Applies the rotation to a twist (conjugating the twist by its
    /// matrix); the twist with index 0 stands for a result that is no twist.
    pub fn transform_twist(self, t: Twist) -> (r: Twist)
        ensures
            xy_transformed(self, t, r),
    {
        if self.is_ident() {
            t
        } else {
            let m = self.mat4();
            proof {
                use_type_invariant(&self);
                lemma_xy_mat_perm(self.spec_pow() as nat);
            }
            t.transform_by(m)
        }
    }
}

/// Every power of `rot(X, Y)` is a well-formed signed permutation matrix.
pub proof fn lemma_xy_mat_perm(p: nat)
    ensures
        xy_mat(p as int).is_perm(),
        xy_mat(p as int).wf(),
    decreases p,
{
    Mat4::lemma_rot(Axis::X, Axis::Y);
    let r = Mat4::spec_rot(Axis::X, Axis::Y);
    if p == 0 {
        Mat4::lemma_ident();
    } else {
        lemma_xy_mat_perm((p - 1) as nat);
        let q = xy_mat(p - 1);
        Mat4::lemma_mul(q, r);
        q.lemma_view();
        r.lemma_view();
        crate::linalg::mat4::lemma_apply_range(q, r@[0]);
        crate::linalg::mat4::lemma_apply_range(q, r@[1]);
        crate::linalg::mat4::lemma_apply_range(q, r@[2]);
        crate::linalg::mat4::lemma_apply_range(q, r@[3]);
    }
}

proof fn lemma_xy_step(p: nat, before: Seq<int>, after: Seq<int>)
    requires
        xy_mat(p as int)@ == before,
        before.len() == 4,
        after == seq![
            flip_idx(before, 2),
            flip_idx(before, 1),
            before[2],
            before[3],
        ],
        0 <= before[0] < 8,
        0 <= before[1] < 8,
    ensures
        xy_mat(p + 1int)@ == after,
{
    let r = Mat4::spec_rot(Axis::X, Axis::Y);
    Mat4::lemma_rot(Axis::X, Axis::Y);
    assert(r@ == seq![2int, 1int, 4int, 6int]);
    let q = xy_mat(p as int);
    assert(xy_mat(p + 1int) == q.spec_mul(r));
    Mat4::lemma_mul(q, r);
    assert(q.apply_idx(2) == flip_idx(before, 2));
    assert(q.apply_idx(1) == flip_idx(before, 1));
    assert(q.apply_idx(4) == before[2]);
    assert(q.apply_idx(6) == before[3]);
    assert(xy_mat(p + 1int)@ =~= after);
}

/// `before` applied to facet number `f`.
spec fn flip_idx(before: Seq<int>, f: int) -> int {
    crate::linalg::mat4::flip_if(before[f / 2], f % 2)
}

/// The fourth power of the XY rotation is the identity, so composing XY
/// rotations adds their powers modulo 4.
pub proof fn law_xy_rot_period()
    ensures
        xy_mat(4) == Mat4::spec_ident(),
{
    Mat4::lemma_ident();
    assert(xy_mat(0) == Mat4::spec_ident());
    lemma_xy_step(0, seq![0int, 2int, 4int, 6int], seq![2int, 1int, 4int, 6int]);
    lemma_xy_step(1, seq![2int, 1int, 4int, 6int], seq![1int, 3int, 4int, 6int]);
    lemma_xy_step(2, seq![1int, 3int, 4int, 6int], seq![3int, 0int, 4int, 6int]);
    lemma_xy_step(3, seq![3int, 0int, 4int, 6int], seq![0int, 2int, 4int, 6int]);
    lemma_xy_mat_perm(4);
    Mat4::lemma_ext(xy_mat(4), Mat4::spec_ident());
}

/// The columns of the four powers of the XY rotation.
pub proof fn lemma_xy_mat_views()
    ensures
        xy_mat(0)@ == seq![0int, 2int, 4int, 6int],
        xy_mat(1)@ == seq![2int, 1int, 4int, 6int],
        xy_mat(2)@ == seq![1int, 3int, 4int, 6int],
        xy_mat(3)@ == seq![3int, 0int, 4int, 6int],
        xy_mat(0).wf() && xy_mat(1).wf() && xy_mat(2).wf() && xy_mat(3).wf(),
{
    Mat4::lemma_ident();
    assert(xy_mat(0) == Mat4::spec_ident());
    lemma_xy_step(0, seq![0int, 2int, 4int, 6int], seq![2int, 1int, 4int, 6int]);
    lemma_xy_step(1, seq![2int, 1int, 4int, 6int], seq![1int, 3int, 4int, 6int]);
    lemma_xy_step(2, seq![1int, 3int, 4int, 6int], seq![3int, 0int, 4int, 6int]);
    lemma_xy_mat_perm(1);
    lemma_xy_mat_perm(2);
    lemma_xy_mat_perm(3);
}

/// The four powers of the XY rotation are four different matrices.
pub proof fn law_xy_mats_distinct()
    ensures
        forall|p: int, q: int| 0 <= p < 4 && 0 <= q < 4 && #[trigger] xy_mat(p) == #[trigger] xy_mat(q) ==> p == q,
{
    Mat4::lemma_ident();
    assert(xy_mat(0) == Mat4::spec_ident());
    lemma_xy_step(0, seq![0int, 2int, 4int, 6int], seq![2int, 1int, 4int, 6int]);
    lemma_xy_step(1, seq![2int, 1int, 4int, 6int], seq![1int, 3int, 4int, 6int]);
    lemma_xy_step(2, seq![1int, 3int, 4int, 6int], seq![3int, 0int, 4int, 6int]);
    assert(xy_mat(0)@[0] == 0 && xy_mat(1)@[0] == 2 && xy_mat(2)@[0] == 1 && xy_mat(3)@[0] == 3);
}

} // verus!
