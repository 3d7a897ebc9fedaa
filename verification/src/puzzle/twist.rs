use vstd::prelude::*;

use super::twist_data::{
    basis_axis, perm_entry, perm_is_odd, sign_bits, slot_of_rank, twist_code, twist_cols,
    TWIST_COUNT,
};
use super::TwistData;
use crate::linalg::facet::{facet_of, sign_of_idx};
use crate::linalg::mat4::{ident_cols, pack, unpack, valid_cols};
use crate::linalg::{Axis, Facet, Mat4, Sign, Vec4, TransformByMat4};

verus! {

/// Returns the 6 permutations of 3 elements, each with whether it is odd.
pub fn permutations_of_3_elems<T: Copy>(elems: [T; 3]) -> (r: [([T; 3], bool); 6])
    ensures
        forall|p: int, i: int|
            0 <= p < 6 && 0 <= i < 3 ==> #[trigger] r[p].0[i] == elems[perm_entry(p, i)],
        forall|p: int| 0 <= p < 6 ==> #[trigger] r[p].1 == perm_is_odd(p),
{
    let a = elems[0];
    let b = elems[1];
    let c = elems[2];
    let r = [
        ([b, c, a], false),
        ([c, b, a], true),
        ([a, c, b], true),
        ([c, a, b], false),
        ([a, b, c], false),
        ([b, a, c], true),
    ];
    assert forall|p: int, i: int|
        0 <= p < 6 && 0 <= i < 3 implies #[trigger] r[p].0[i] == elems[perm_entry(p, i)] by {
        assert(elems[0] == a && elems[1] == b && elems[2] == c);
    }
    r
}

/// A twist, identified by its index in `0..184`.
///
/// Twists are numbered facet by facet (`R`, `L`, `U`, `D`, `F`, `B`, `O`,
/// `I`), 23 per facet.
#[derive(Debug, Copy, Clone, PartialEq, Eq, Structural, Hash, PartialOrd, Ord)]
pub struct Twist(pub(crate) u8);

/// The twist whose data has the packed bits `c`, or the twist with index 0
/// if there is none.
pub open spec fn twist_of_code(c: int) -> Twist {
    if exists|t: int| 0 <= t < 184 && twist_code(t) == c {
        Twist::spec_from_index(choose|t: int| 0 <= t < 184 && twist_code(t) == c)
    } else {
        Twist::spec_from_index(0)
    }
}

/// What [`Twist::pow`] returns: `None` if the power of the rotation is the
/// identity, otherwise the twist of the same facet with that rotation.
#[verifier::opaque]
pub open spec fn pow_twist(t: Twist, multiplier: i8) -> Option<Twist> {
    let rot = t.spec_rot();
    let m = if multiplier >= 0 {
        rot.spec_pow(multiplier as nat)
    } else {
        rot.spec_inv().spec_pow((-multiplier) as nat)
    };
    if m == Mat4::spec_ident() {
        None
    } else {
        Some(twist_of_code(4096 * (t.idx() / 23) + m.bits()))
    }
}

impl Twist {
    /// The index of the twist.
    pub closed spec fn idx(self) -> int {
        self.0 as int
    }

    /// Indices are in `0..184`.
    #[verifier::type_invariant]
    pub closed spec fn inv(self) -> bool {
        self.0 < 184
    }

    /// The packed data of the twist.
    pub open spec fn code(self) -> int {
        twist_code(self.idx())
    }

    /// The twist with the given index.
    pub closed spec fn spec_from_index(i: int) -> Twist {
        Twist(i as u8)
    }

    /// Indices of twists are in `0..184`, and each index has its twist.
    pub proof fn lemma_idx(self)
        ensures
            0 <= self.idx(),
            self.inv() ==> 0 <= self.idx() < 184,
            self.inv() ==> Self::spec_from_index(self.idx()) == self,
    {
    }

    /// Two twists with the same index are the same twist.
    pub proof fn lemma_idx_eq(a: Twist, b: Twist)
        ensures
            a.idx() == b.idx() ==> a == b,
    {
    }

    /// The twist built from an index has that index.
    pub proof fn lemma_from_index(i: int)
        requires
            0 <= i < 184,
        ensures
            Self::spec_from_index(i).idx() == i,
            Self::spec_from_index(i).inv(),
    {
    }

    /// Returns the twist with index `i`.
    pub fn from_index(i: u8) -> (r: Twist)
        requires
            i < TWIST_COUNT,
        ensures
            r.idx() == i,
            r == Self::spec_from_index(i as int),
    {
        Twist(i)
    }

    /// Returns the index of the twist, a unique number in `0..184`.
    pub fn index(self) -> (r: u8)
        ensures
            r == self.idx(),
            r < TWIST_COUNT,
    {
        proof {
            use_type_invariant(&self);
        }
        self.0
    }

    /// Returns the index of the twist.
    pub fn to_index(self) -> (r: u8)
        ensures
            r == self.idx(),
            r < TWIST_COUNT,
    {
        self.index()
    }

    /// Returns all the twists, in order of index.
    pub fn iter() -> (r: Vec<Twist>)
        ensures
            r@.len() == 184,
            forall|i: int| 0 <= i < 184 ==> (#[trigger] r@[i]).idx() == i,
    {
        let mut ret: Vec<Twist> = Vec::new();
        let mut i: u8 = 0;
        while i < TWIST_COUNT
            invariant
                0 <= i <= 184,
                ret@.len() == i,
                forall|j: int| 0 <= j < i ==> (#[trigger] ret@[j]).idx() == j,
            decreases 184 - i,
        {
            ret.push(Twist(i));
            i = i + 1;
        }
        ret
    }

    /// Returns the facet that the twist turns.
    pub fn facet(self) -> (r: Facet)
        ensures
            r.idx() == self.idx() / 23,
            r.idx() == self.code() / 4096,
    {
        proof {
            use_type_invariant(&self);
            lemma_twist_valid(self.idx());
        }
        Facet::from_u8(self.0 / 23)
    }

    /// Returns the data associated with the twist.
    pub fn data(self) -> (r: TwistData)
        ensures
            r.code() == self.code(),
            r.facet_idx() == self.idx() / 23,
            r.spec_rot()@ == twist_cols(self.idx() / 23, self.idx() % 23),
    {
        proof {
            use_type_invariant(&self);
            lemma_twist_valid(self.idx());
        }
        let t = self.0;
        let k = t % 23;
        let kk = if k >= 16 {
            k + 1
        } else {
            k
        };
        let p = kk / 4;
        let j = kk % 4;
        let s: u8 = if p == 1 || p == 2 || p == 5 {
            if j == 0 {
                1
            } else if j == 1 {
                2
            } else if j == 2 {
                4
            } else {
                7
            }
        } else {
            if j == 0 {
                0
            } else if j == 1 {
                3
            } else if j == 2 {
                5
            } else {
                6
            }
        };
        assert(s == sign_bits(perm_is_odd(p as int), j as int));
        let facet = Facet::from_u8(t / 23);
        let basis = facet.axis().orthogonal_basis();
        let x = basis[0];
        let y = basis[1];
        let z = basis[2];
        proof {
            lemma_basis(facet.idx() / 2, x, y, z);
        }
        let perms = permutations_of_3_elems([x, y, z]);
        let perm = perms[p as usize].0;
        let s1 = s >> 1;
        let s2 = s >> 2;
        assert(s1 == s / 2 && s2 == s / 4) by (bit_vector)
            requires
                s1 == s >> 1,
                s2 == s >> 2,
        ;
        let rot = Mat4::ident().set_col(x, Facet::new(perm[0], Sign::from_lsb(s))).set_col(
            y,
            Facet::new(perm[1], Sign::from_lsb(s1)),
        ).set_col(z, Facet::new(perm[2], Sign::from_lsb(s2)));
        proof {
            let a = facet.idx() / 2;
            assert(perm[0] == [x, y, z][perm_entry(p as int, 0)]);
            assert(perm[1] == [x, y, z][perm_entry(p as int, 1)]);
            assert(perm[2] == [x, y, z][perm_entry(p as int, 2)]);
            assert(perm[0].idx() == basis_axis(a, perm_entry(p as int, 0)));
            assert(perm[1].idx() == basis_axis(a, perm_entry(p as int, 1)));
            assert(perm[2].idx() == basis_axis(a, perm_entry(p as int, 2)));
            assert(rot@ =~= twist_cols(self.idx() / 23, self.idx() % 23));
            use_type_invariant(&rot);
            Mat4::lemma_from_cols(twist_cols(self.idx() / 23, self.idx() % 23));
            Mat4::lemma_ext(rot, Mat4::spec_from_cols(twist_cols(self.idx() / 23, self.idx() % 23)));
        }
        let r = TwistData::new(facet, rot);
        proof {
            use_type_invariant(&r);
            r.lemma_valid();
            rot.lemma_bits();
            assert(r.code() == 4096 * r.facet_idx() + r.code() % 4096);
        }
        r
    }

    /// Returns the twist with the given data, or the twist with index 0 if no
    /// twist has that data.
    pub fn from_data(data: TwistData) -> (r: Twist)
        ensures
            (exists|t: int| 0 <= t < 184 && twist_code(t) == data.code()) ==> r.code() == data.code(),
            !(exists|t: int| 0 <= t < 184 && twist_code(t) == data.code()) ==> r.idx() == 0,
            forall|t: int| 0 <= t < 184 && twist_code(t) == data.code() ==> r.idx() == t,
            r == twist_of_code(data.code()),
    {
        let r = Self::from_data_search(data);
        proof {
            use_type_invariant(&r);
            r.lemma_idx();
            if exists|t: int| 0 <= t < 184 && twist_code(t) == data.code() {
                let t = choose|t: int| 0 <= t < 184 && twist_code(t) == data.code();
                assert(r.idx() == t);
            } else {
                Self::lemma_from_index(0);
                assert(Self::spec_from_index(0).idx() == 0);
                assert(Self::spec_from_index(r.idx()) == r);
            }
        }
        r
    }

    #[verifier::spinoff_prover]
    #[verifier::rlimit(60)]
    fn from_data_search(data: TwistData) -> (r: Twist)
        ensures
            (exists|t: int| 0 <= t < 184 && twist_code(t) == data.code()) ==> r.code() == data.code(),
            !(exists|t: int| 0 <= t < 184 && twist_code(t) == data.code()) ==> r.idx() == 0,
            forall|t: int| 0 <= t < 184 && twist_code(t) == data.code() ==> r.idx() == t,
    {
        let mut i: u8 = 0;
        while i < TWIST_COUNT
            invariant
                0 <= i <= 184,
                forall|t: int| 0 <= t < i ==> #[trigger] twist_code(t) != data.code(),
            decreases 184 - i,
        {
            let t = Twist(i);
            let d = t.data();
            proof {
                TwistData::lemma_code_eq(d, data);
            }
            if d == data {
                proof {
                    assert forall|u: int| 0 <= u < 184 && twist_code(u) == data.code() implies u == i by {
                        lemma_twist_code_injective(u, i as int);
                    }
                }
                return t;
            }
            i = i + 1;
        }
        Twist(0)
    }

    /// Constructs a twist of `facet` applying `rot` to the affected pieces
    /// (the twist with index 0 if no twist has that data).
    pub fn new(facet: Facet, rot: Mat4) -> (r: Twist)
        requires
            TwistData::valid_twist(facet.idx(), rot),
        ensures
            (exists|t: int| 0 <= t < 184 && twist_code(t) == 4096 * facet.idx() + rot.bits()) ==> r.code()
                == 4096 * facet.idx() + rot.bits(),
    {
        let d = TwistData::new(facet, rot);
        proof {
            use_type_invariant(&d);
            d.lemma_valid();
            use_type_invariant(&rot);
            rot.lemma_bits();
        }
        Self::from_data(d)
    }

    /// Rotation applied to the pieces that the twist moves.
    pub open spec fn spec_rot(self) -> Mat4 {
        Mat4::spec_from_cols(twist_cols(self.idx() / 23, self.idx() % 23))
    }

    /// Whether the twist moves the piece at `v`: `v` is on the twisted
    /// facet's side of the puzzle.
    pub open spec fn spec_affects(self, v: Vec4) -> bool {
        v.at(facet_of(self.idx() / 23).spec_axis()) * facet_of(self.idx() / 23).spec_sign().val() > 0
    }

    /// Returns the rotation applied to affected pieces.
    pub fn rot(self) -> (r: Mat4)
        ensures
            r@ == twist_cols(self.idx() / 23, self.idx() % 23),
            r == self.spec_rot(),
    {
        let r = self.data().rot();
        proof {
            use_type_invariant(&self);
            use_type_invariant(&r);
            lemma_twist_valid(self.idx());
            Mat4::lemma_from_cols(twist_cols(self.idx() / 23, self.idx() % 23));
            Mat4::lemma_ext(r, self.spec_rot());
        }
        r
    }

    /// Returns whether a point is affected by the twist.
    pub fn affects(self, v: Vec4) -> (r: bool)
        ensures
            r == self.spec_affects(v),
    {
        self.facet().has_vector(v)
    }
}

/// Whether `r` is the twist `t` conjugated by `m`: the twist of the facet
/// that `m` takes `t`'s facet to, with `t`'s rotation transformed by `m`,
/// whenever such a twist exists.
pub open spec fn conjugated(t: Twist, m: Mat4, r: Twist) -> bool {
    let rot = Mat4::spec_from_cols(twist_cols(t.idx() / 23, t.idx() % 23));
    let code = 4096 * m.apply_idx(t.idx() / 23) + rot.spec_transform_by(m).bits();
    (exists|u: int| 0 <= u < 184 && twist_code(u) == code) ==> r.code() == code
}

impl Twist {
    /// Returns the twist repeated `multiplier` times (a negative multiplier
    /// repeats the inverse), or `None` if the result is the identity; the
    /// twist with index 0 stands for a result that is no twist.
    pub fn pow(self, multiplier: i8) -> (r: Option<Twist>)
        requires
            multiplier != i8::MIN,
        ensures
            ({
                let rot = Mat4::spec_from_cols(twist_cols(self.idx() / 23, self.idx() % 23));
                let m = if multiplier >= 0 {
                    rot.spec_pow(multiplier as nat)
                } else {
                    rot.spec_inv().spec_pow((-multiplier) as nat)
                };
                &&& m == Mat4::spec_ident() ==> r is None
                &&& m != Mat4::spec_ident() ==> (r matches Some(t) && ((exists|u: int|
                    0 <= u < 184 && twist_code(u) == 4096 * (self.idx() / 23) + m.bits())
                    ==> t.code() == 4096 * (self.idx() / 23) + m.bits()))
            }),
            r == pow_twist(self, multiplier),
    {
        reveal(pow_twist);
        proof {
            use_type_invariant(&self);
            lemma_twist_valid(self.idx());
            let cols = twist_cols(self.idx() / 23, self.idx() % 23);
            Mat4::lemma_from_cols(cols);
            crate::linalg::mat4::lemma_apply_inv(Mat4::spec_from_cols(cols), self.idx() / 23);
        }
        let d = self.data();
        proof {
            use_type_invariant(&d);
            d.lemma_valid();
            Mat4::lemma_from_cols(twist_cols(self.idx() / 23, self.idx() % 23));
            Mat4::lemma_ext(d.spec_rot(), Mat4::spec_from_cols(twist_cols(self.idx() / 23, self.idx() % 23)));
        }
        match d.pow(multiplier) {
            Some(p) => {
                proof {
                    use_type_invariant(&p);
                    p.lemma_valid();
                    p.spec_rot().lemma_bits();
                    assert(p.code() == 4096 * p.facet_idx() + p.code() % 4096);
                }
                Some(Self::from_data(p))
            },
            None => None,
        }
    }

    /// Returns the twist conjugated by a signed permutation matrix `m` (the
    /// twist with index 0 stands for a result that is no twist).
    pub fn transform_by(self, m: Mat4) -> (r: Twist)
        requires
            m.is_perm(),
        ensures
            conjugated(self, m, r),
    {
        proof {
            use_type_invariant(&self);
            lemma_twist_valid(self.idx());
            Mat4::lemma_from_cols(twist_cols(self.idx() / 23, self.idx() % 23));
        }
        let d = self.data();
        proof {
            use_type_invariant(&d);
            d.lemma_valid();
            Mat4::lemma_ext(d.spec_rot(), Mat4::spec_from_cols(twist_cols(self.idx() / 23, self.idx() % 23)));
        }
        let e = d.transform_by(m);
        proof {
            use_type_invariant(&e);
            e.lemma_valid();
            e.spec_rot().lemma_bits();
            assert(e.code() == 4096 * e.facet_idx() + e.code() % 4096);
        }
        Self::from_data(e)
    }
}

/// Different twists have different data.
pub proof fn lemma_twist_code_injective(t1: int, t2: int)
    requires
        0 <= t1 < 184,
        0 <= t2 < 184,
        twist_code(t1) == twist_code(t2),
    ensures
        t1 == t2,
{
    lemma_twist_valid(t1);
    lemma_twist_valid(t2);
    let f = t1 / 23;
    assert(t2 / 23 == f);
    let a = f / 2;
    let c1 = twist_cols(f, t1 % 23);
    let c2 = twist_cols(f, t2 % 23);
    crate::linalg::mat4::lemma_unpack_pack(c1);
    crate::linalg::mat4::lemma_unpack_pack(c2);
    assert(pack(c1) == pack(c2));
    assert forall|c: int| 0 <= c < 4 implies c1[c] == c2[c] by {
        assert(unpack(pack(c1), c) == c1[c]);
        assert(unpack(pack(c2), c) == c2[c]);
    }
    let kk1 = slot_of_rank(t1 % 23);
    let kk2 = slot_of_rank(t2 % 23);
    let p1 = kk1 / 4;
    let p2 = kk2 / 4;
    let s1 = sign_bits(perm_is_odd(p1), kk1 % 4);
    let s2 = sign_bits(perm_is_odd(p2), kk2 % 4);
    assert(c1[basis_axis(a, 0)] == 2 * basis_axis(a, perm_entry(p1, 0)) + s1 % 2);
    assert(c1[basis_axis(a, 1)] == 2 * basis_axis(a, perm_entry(p1, 1)) + (s1 / 2) % 2);
    assert(c1[basis_axis(a, 2)] == 2 * basis_axis(a, perm_entry(p1, 2)) + (s1 / 4) % 2);
    assert(c2[basis_axis(a, 0)] == 2 * basis_axis(a, perm_entry(p2, 0)) + s2 % 2);
    assert(c2[basis_axis(a, 1)] == 2 * basis_axis(a, perm_entry(p2, 1)) + (s2 / 2) % 2);
    assert(c2[basis_axis(a, 2)] == 2 * basis_axis(a, perm_entry(p2, 2)) + (s2 / 4) % 2);
    assert(perm_entry(p1, 0) == perm_entry(p2, 0));
    assert(perm_entry(p1, 1) == perm_entry(p2, 1));
    assert(perm_entry(p1, 2) == perm_entry(p2, 2));
    assert(p1 == p2);
    assert(s1 == s2);
    assert(kk1 % 4 == kk2 % 4);
    assert(kk1 == kk2);
}

/// The basis of the complement of axis number `a` lists the axes
/// `basis_axis(a, 0..3)`.
pub proof fn lemma_basis(a: int, x: Axis, y: Axis, z: Axis)
    requires
        0 <= a < 4,
        x.idx() < y.idx() < z.idx(),
        x.idx() != a && y.idx() != a && z.idx() != a,
    ensures
        x.idx() == basis_axis(a, 0),
        y.idx() == basis_axis(a, 1),
        z.idx() == basis_axis(a, 2),
{
}

/// The rotation of every twist is a valid twist rotation of its facet.
pub proof fn lemma_twist_valid(t: int)
    requires
        0 <= t < 184,
    ensures
        valid_cols(twist_cols(t / 23, t % 23)),
        0 <= pack(twist_cols(t / 23, t % 23)) < 4096,
        0 <= twist_code(t) < 32768,
        twist_code(t) / 4096 == t / 23,
        twist_code(t) % 4096 == pack(twist_cols(t / 23, t % 23)),
        TwistData::valid_twist(t / 23, Mat4::spec_from_cols(twist_cols(t / 23, t % 23))),
        Mat4::spec_from_cols(twist_cols(t / 23, t % 23)).is_perm(),
{
    let f = t / 23;
    let k = t % 23;
    let a = f / 2;
    let cols = twist_cols(f, k);
    let kk = slot_of_rank(k);
    let p = kk / 4;
    assert(0 <= p < 6);
    assert(valid_cols(cols));
    crate::linalg::mat4::lemma_unpack_pack(cols);
    Mat4::lemma_from_cols(cols);
    let m = Mat4::spec_from_cols(cols);
    assert(m.apply_idx(f) == f);
    Mat4::lemma_ident();
    if m == Mat4::spec_ident() {
        assert(m@ == ident_cols());
        assert(cols[basis_axis(a, 0)] == ident_cols()[basis_axis(a, 0)]);
        assert(cols[basis_axis(a, 1)] == ident_cols()[basis_axis(a, 1)]);
        assert(cols[basis_axis(a, 2)] == ident_cols()[basis_axis(a, 2)]);
        assert(false);
    }
}

/// The rotation of a twist keeps every piece position on the same side of
/// the twisted facet, and so does its inverse.
pub proof fn lemma_twist_keeps_side(t: Twist, v: Vec4)
    requires
        t.inv(),
        v.in_cube(),
    ensures
        t.spec_rot().wf(),
        t.spec_rot().is_perm(),
        t.spec_affects(t.spec_rot().spec_apply(v)) == t.spec_affects(v),
        t.spec_affects(t.spec_rot().spec_inv().spec_apply(v)) == t.spec_affects(v),
{
    let i = t.idx();
    lemma_twist_valid(i);
    let r = t.spec_rot();
    Mat4::lemma_from_cols(twist_cols(i / 23, i % 23));
    let f = i / 23;
    let a = f / 2;
    r.lemma_view();
    assert(r.apply_idx(f) == f);
    assert(r@[a] == 2 * a);
    crate::linalg::mat4::lemma_apply_perm(r, v);
    assert(r.spec_apply(v).0[r@[a] / 2] == sign_of_idx(r@[a]).val() * v.comp(a));
    assert(r.spec_apply(v).0[a] == v.0[a]);
    crate::linalg::facet::lemma_facet_of_idx(facet_of(f));
    assert(facet_of(f).spec_axis().idx() == a);
    let u = r.spec_inv().spec_apply(v);
    crate::linalg::mat4::lemma_apply_inv_vec(r, v);
    crate::linalg::mat4::lemma_apply_perm(r, u);
    assert(r.spec_apply(u).0[r@[a] / 2] == sign_of_idx(r@[a]).val() * u.comp(a));
    assert(u.0[a] == v.0[a]);
}

/// The twist conjugated by `m`.
impl TransformByMat4 for Twist {
    open spec fn can_transform_by(&self, m: Mat4) -> bool {
        m.is_perm()
    }

    open spec fn transformed_by(&self, m: Mat4, r: Twist) -> bool {
        conjugated(*self, m, r)
    }

    fn transform_by(&self, m: Mat4) -> (r: Twist) {
        Twist::transform_by(*self, m)
    }
}

} // verus!
