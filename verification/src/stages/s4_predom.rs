//! Stage 4 of the first method: pre-domino.
use vstd::prelude::*;

use super::s1_mid::{any_position, edge_points, ridge_points};
use super::s3_count::corner_points;
use super::slots::{check_slots, slots_ok};
use super::Stage;
use crate::bits::{field, lemma_truncate_u32, lemma_truncate_u64};
use crate::codegen::{corners, edges, ridges, PermutationLut};
use crate::linalg::{Axis, Facet, Mat4, Vec4, TransformByMat4};
use crate::linalg::facet::{facet_idx_of, sign_of_idx};
use crate::linalg::mat4::{lemma_apply_any_in_cube, lemma_apply_perm};
use crate::linalg::Sign;
use crate::puzzle::piece_type::{cube_points, lemma_cube_norm, lemma_filter_norm};
use crate::puzzle::sim::{
    all_values, cube_index, setup_pieces, current_pos, lemma_cube_index, lemma_cube_index_injective, lemma_cube_point, pack_bits,
    SimplePuzzleSim,
};
use crate::puzzle::twist_names::spec_from_name;
use crate::puzzle::PieceType;
use crate::stage_utils::{rl_init_eo, spec_rl_eo};
use vstd::relations::{sorted_by, total_ordering};
use crate::permutation::{field_pos, has_twist_row, is_twist_row, moves_fields, twist_fields, FieldRule};
use crate::puzzle::{Twist, TwistSet};

use crate::xy_rot::XyRot;

verus! {

/// Position and orientation of a ridge, as an ordered pair of facets: the
/// number of the first facet in the low three bits, the number of the second
/// in the next three.
#[derive(Debug, Copy, Clone, PartialEq, Eq, Structural, Hash, PartialOrd, Ord)]
pub struct RidgePos(pub u8);

/// A ridge position from the numbers of its two facets.
pub open spec fn ridge_of(f1: int, f2: int) -> RidgePos {
    RidgePos((f1 + 8 * f2) as u8)
}

impl RidgePos {
    /// Whether both facet numbers are in `0..8`.
    pub open spec fn wf(self) -> bool {
        self.0 < 64
    }

    /// Number of the first facet.
    pub open spec fn f1(self) -> int {
        self.0 as int % 8
    }

    /// Number of the second facet.
    pub open spec fn f2(self) -> int {
        self.0 as int / 8
    }

    /// Whether neither facet is on the X axis.
    pub open spec fn spec_is_in_m(self) -> bool {
        self.f1() / 2 != 0 && self.f2() / 2 != 0
    }

    /// The ridge after a twist: the facet that is not the twisted one turns
    /// with the twist's rotation.
    pub open spec fn spec_do_twist(self, t: Twist) -> RidgePos {
        let f = t.idx() / 23;
        let rot = t.spec_rot();
        if self.f1() == f {
            ridge_of(self.f1(), rot.apply_idx(self.f2()))
        } else if self.f2() == f {
            ridge_of(rot.apply_idx(self.f1()), self.f2())
        } else {
            self
        }
    }

    /// Returns the ridge position with the given facets.
    pub fn new(facet1: Facet, facet2: Facet) -> (r: RidgePos)
        ensures
            r == ridge_of(facet1.idx(), facet2.idx()),
            r.wf(),
            r.f1() == facet1.idx(),
            r.f2() == facet2.idx(),
    {
        let a = facet1.to_u8();
        let b = facet2.to_u8();
        RidgePos(a + 8 * b)
    }

    /// Returns the first facet.
    pub fn facet1(self) -> (r: Facet)
        requires
            self.wf(),
        ensures
            r.idx() == self.f1(),
    {
        Facet::from_u8(self.0 % 8)
    }

    /// Returns the second facet.
    pub fn facet2(self) -> (r: Facet)
        requires
            self.wf(),
        ensures
            r.idx() == self.f2(),
    {
        Facet::from_u8(self.0 / 8)
    }

    /// Returns whether neither facet is on the X axis (the ridge is in the
    /// `M` slice).
    pub fn is_in_m(self) -> (r: bool)
        requires
            self.wf(),
        ensures
            r == self.spec_is_in_m(),
    {
        self.facet1().axis().to_u8() != 0 && self.facet2().axis().to_u8() != 0
    }

    /// Returns the ridge after a twist.
    pub fn do_twist(self, twist: Twist) -> (r: RidgePos)
        requires
            self.wf(),
        ensures
            r == self.spec_do_twist(twist),
            r.wf(),
    {
        let f = twist.facet().to_u8();
        let f1 = self.facet1();
        let f2 = self.facet2();
        if f1.to_u8() == f {
            RidgePos::new(f1, f2.transform_by(twist.rot()))
        } else if f2.to_u8() == f {
            RidgePos::new(f1.transform_by(twist.rot()), f2)
        } else {
            self
        }
    }

    /// Returns the ridge with both facets transformed by `m`.
    pub fn transform_by(self, m: Mat4) -> (r: RidgePos)
        requires
            self.wf(),
        ensures
            r == ridge_of(m.apply_idx(self.f1()), m.apply_idx(self.f2())),
            r.wf(),
    {
        RidgePos::new(self.facet1().transform_by(m), self.facet2().transform_by(m))
    }
}

/// Twist data packed in an integer: the facet in the bits from 24 up.
#[derive(Debug, Copy, Clone, PartialEq, Eq, Structural, Hash)]
pub struct PackedTwistData(pub u32);

impl PackedTwistData {
    /// Returns the facet of the twist.
    pub fn facet(self) -> (r: Facet)
        requires
            self.0 >> 24u32 < 8,
        ensures
            r.idx() == self.0 >> 24u32,
    {
        Facet::from_u8((self.0 >> 24) as u8)
    }

    /// Returns the facet number held in the three bits of the data that
    /// start at bit `f` (the number of the facet `f`).
    pub fn rot_facet(self, f: Facet) -> (r: Facet)
        ensures
            r.idx() == (self.0 >> (f.idx() as u32)) % 8,
    {
        let s = f.to_u8();
        let v = (self.0 >> (s as u32)) % 8;
        Facet::from_u8(v as u8)
    }
}

/// The two ridges in order of their numbers.
pub open spec fn sort_pair(a: RidgePos, b: RidgePos) -> (RidgePos, RidgePos) {
    if a.0 <= b.0 {
        (a, b)
    } else {
        (b, a)
    }
}

/// The first two ridges sorted, then the last two sorted.
pub open spec fn spec_sort_ridge_pairs(r: Seq<RidgePos>) -> Seq<RidgePos> {
    let p = sort_pair(r[0], r[1]);
    let q = sort_pair(r[2], r[3]);
    seq![p.0, p.1, q.0, q.1]
}

/// The ridges after a twist, each pair sorted.
pub open spec fn spec_update_ridges(r: Seq<RidgePos>, t: Twist) -> Seq<RidgePos> {
    spec_sort_ridge_pairs(
        seq![r[0].spec_do_twist(t), r[1].spec_do_twist(t), r[2].spec_do_twist(t), r[3].spec_do_twist(t)],
    )
}

/// Whether all four ridges are well formed.
pub open spec fn ridges_wf(r: Seq<RidgePos>) -> bool {
    r.len() == 4 && forall|i: int| 0 <= i < 4 ==> (#[trigger] r[i]).wf()
}

/// Returns the ridges with the first two sorted and the last two sorted.
pub fn sort_ridge_pairs(ridges: [RidgePos; 4]) -> (r: [RidgePos; 4])
    ensures
        r@ == spec_sort_ridge_pairs(ridges@),
{
    let mut r = ridges;
    if r[1].0 < r[0].0 {
        let t = r[0];
        r[0] = r[1];
        r[1] = t;
    }
    if r[3].0 < r[2].0 {
        let t = r[2];
        r[2] = r[3];
        r[3] = t;
    }
    assert(r@ =~= spec_sort_ridge_pairs(ridges@));
    r
}

/// Returns the ridges after a twist, each pair sorted.
pub fn update_ridges(ridges: [RidgePos; 4], twist: Twist) -> (r: [RidgePos; 4])
    requires
        ridges_wf(ridges@),
    ensures
        r@ == spec_update_ridges(ridges@, twist),
        ridges_wf(r@),
{
    let moved = [
        ridges[0].do_twist(twist),
        ridges[1].do_twist(twist),
        ridges[2].do_twist(twist),
        ridges[3].do_twist(twist),
    ];
    assert(moved@ =~= seq![
        ridges@[0].spec_do_twist(twist),
        ridges@[1].spec_do_twist(twist),
        ridges@[2].spec_do_twist(twist),
        ridges@[3].spec_do_twist(twist),
    ]);
    sort_ridge_pairs(moved)
}

/// Whether a ridge piece, at home position `init` with attitude `att`, is
/// misoriented relative to the X axis: an `M` ridge that left the `M` slice,
/// or an `R`/`L` ridge whose `R`/`L` sticker no longer points along X.
pub open spec fn is_misoriented(init: Vec4, att: Mat4) -> bool {
    if init.0[0] == 0 {
        att.spec_apply(init).0[0] != 0
    } else {
        att@[0] / 2 != 0
    }
}

/// Number of the facet that `v` is on along the axis `a`.
pub open spec fn facet_idx_at(v: Vec4, a: Axis) -> int {
    facet_idx_of(a.idx(), if v.at(a) > 0 { Sign::Pos } else { Sign::Neg })
}

/// Position of a ridge piece: the facets that its attitude takes its home
/// facets to (in axis order of the home position), swapped when the first
/// lies on the X axis.
pub open spec fn ridge_pos_of(init: Vec4, att: Mat4) -> RidgePos {
    let axes = init.spec_nonzero_axes();
    let g1 = att.apply_idx(facet_idx_at(init, axes[0]));
    let g2 = att.apply_idx(facet_idx_at(init, axes[1]));
    if g1 / 2 == 0 {
        ridge_of(g2, g1)
    } else {
        ridge_of(g1, g2)
    }
}

/// Positions of the misoriented ridge pieces in the slots `pts`, in order.
pub open spec fn misoriented_ridges(pieces: Seq<(Vec4, Mat4)>, pts: Seq<Vec4>) -> Seq<RidgePos>
    decreases pts.len(),
{
    if pts.len() == 0 {
        Seq::empty()
    } else {
        let prev = misoriented_ridges(pieces, pts.drop_last());
        let p = pieces[cube_index(pts.last())];
        if is_misoriented(p.0, p.1) {
            prev.push(ridge_pos_of(p.0, p.1))
        } else {
            prev
        }
    }
}

/// Order of ridge positions by number.
pub open spec fn ridge_leq() -> spec_fn(RidgePos, RidgePos) -> bool {
    |a: RidgePos, b: RidgePos| a.0 <= b.0
}

/// The positions of the misoriented ridges, sorted by number.
pub open spec fn sorted_ridges(pieces: Seq<(Vec4, Mat4)>) -> Seq<RidgePos> {
    misoriented_ridges(pieces, ridge_points()).sort_by(ridge_leq())
}

/// Edge bits: the orientation relative to the X axis (see [`rl_init_eo`]).
pub open spec fn s4_edge_fn() -> spec_fn(Vec4, Mat4) -> u64 {
    |init: Vec4, att: Mat4| spec_rl_eo(att, init, if init.0[0] == 0 { 0u8 } else { 3u8 }) as u64
}

/// Corner bits: the axis that the attitude takes X to.
pub open spec fn s4_corner_fn() -> spec_fn(Vec4, Mat4) -> u64 {
    |init: Vec4, att: Mat4| (att@[0] / 2) as u64
}

/// Ordering ridge positions by number is a total order.
proof fn lemma_ridge_leq()
    ensures
        total_ordering(ridge_leq()),
{
}

/// A signed permutation keeps the number of nonzero components.
proof fn lemma_apply_keeps_count(m: Mat4, v: Vec4)
    requires
        m.is_perm(),
        v.in_cube(),
    ensures
        m.spec_apply(v).nonzero_count() == v.nonzero_count(),
{
    m.lemma_view();
    lemma_apply_perm(m, v);
    let w = m.spec_apply(v);
    assert forall|c: int| 0 <= c < 4 implies (w.0[m@[c] / 2] != 0) == (v.comp(c) != 0) by {
        if m@[c] % 2 == 0 {
            assert(sign_of_idx(m@[c]).val() == 1);
        } else {
            assert(sign_of_idx(m@[c]).val() == -1);
        }
    }
}

/// Returns the compare-exchange of elements `i` and `j`.
fn cswap(r: [RidgePos; 4], i: usize, j: usize) -> (s: [RidgePos; 4])
    requires
        i < j < 4,
    ensures
        s@.to_multiset() == r@.to_multiset(),
        s[i as int].0 <= s[j as int].0,
        s[i as int].0 == if r[i as int].0 <= r[j as int].0 { r[i as int].0 } else { r[j as int].0 },
        s[j as int].0 == if r[i as int].0 <= r[j as int].0 { r[j as int].0 } else { r[i as int].0 },
        forall|k: int| 0 <= k < 4 && k != i && k != j ==> s[k] == r[k],
        (forall|k: int| 0 <= k < 4 ==> (#[trigger] r[k]).wf()) ==> forall|k: int|
            0 <= k < 4 ==> (#[trigger] s[k]).wf(),
{
    let mut s = r;
    if r[j].0 < r[i].0 {
        s[i] = r[j];
        s[j] = r[i];
        proof {
            broadcast use vstd::seq_lib::group_to_multiset_ensures;
            broadcast use vstd::multiset::group_multiset_axioms;

            let s1 = r@.update(i as int, r@[j as int]);
            assert(s@ =~= s1.update(j as int, r@[i as int]));
            assert(s1.to_multiset() == r@.to_multiset().insert(r@[j as int]).remove(r@[i as int]));
            assert(s@.to_multiset() == s1.to_multiset().insert(r@[i as int]).remove(s1[j as int]));
            assert(s@.to_multiset() =~= r@.to_multiset());
        }
    }
    s
}

/// Returns the ridges sorted by number.
fn sort4(r: [RidgePos; 4]) -> (s: [RidgePos; 4])
    ensures
        s@.to_multiset() == r@.to_multiset(),
        sorted_by(s@, ridge_leq()),
        (forall|k: int| 0 <= k < 4 ==> (#[trigger] r[k]).wf()) ==> ridges_wf(s@),
{
    let a = cswap(r, 0, 1);
    let b = cswap(a, 2, 3);
    let c = cswap(b, 0, 2);
    let d = cswap(c, 1, 3);
    let e = cswap(d, 1, 2);
    assert(e[0].0 <= e[1].0 <= e[2].0 <= e[3].0);
    e
}

/// The piece in the slot of a ridge position is a ridge piece whose home
/// position is in the cube, with a signed permutation as its attitude.
proof fn lemma_slot_piece(pieces: Seq<(Vec4, Mat4)>, pos: Vec4)
    requires
        crate::puzzle::sim::valid_pieces(pieces),
        pos.in_cube(),
        pos.spec_taxicab_norm() == 2,
    ensures
        pieces[cube_index(pos)].0.in_cube(),
        pieces[cube_index(pos)].1.is_perm(),
        pieces[cube_index(pos)].0.nonzero_count() == 2,
{
    lemma_cube_index(pos);
    let p = pieces[cube_index(pos)];
    lemma_apply_any_in_cube(p.1, p.0);
    lemma_cube_index_injective(current_pos(p), pos);
    lemma_apply_keeps_count(p.1, p.0);
    lemma_cube_norm(pos);
}

/// Returns whether a ridge piece is misoriented relative to the X axis.
fn piece_is_misoriented(init: Vec4, att: Mat4) -> (r: bool)
    requires
        init.in_cube(),
    ensures
        r == is_misoriented(init, att),
{
    if init.0[0] == 0 {
        att.mul_vec(init).0[0] != 0
    } else {
        Axis::X.transform_by(att).to_u8() != 0
    }
}

/// The list of nonzero axes has one axis per nonzero component.
proof fn lemma_nonzero_axes_len(v: Vec4)
    ensures
        v.spec_nonzero_axes().len() == v.nonzero_count(),
{
}

/// Returns the position of a ridge piece (see [`ridge_pos_of`]).
#[verifier::spinoff_prover]
#[verifier::rlimit(40)]
fn piece_ridge_pos(init: Vec4, att: Mat4) -> (r: RidgePos)
    requires
        init.nonzero_count() == 2,
    ensures
        r == ridge_pos_of(init, att),
        r.wf(),
{
    proof {
        lemma_nonzero_axes_len(init);
    }
    let fs = init.facets();
    let ghost axes = init.spec_nonzero_axes();
    assert(fs@[0].idx() == facet_idx_at(init, axes[0]));
    assert(fs@[1].idx() == facet_idx_at(init, axes[1]));
    let ridge = RidgePos::new(fs[0], fs[1]).transform_by(att);
    assert(ridge == ridge_of(att.apply_idx(facet_idx_at(init, axes[0])), att.apply_idx(facet_idx_at(init, axes[1]))));
    if ridge.facet1().axis().to_u8() == 0 {
        RidgePos::new(ridge.facet2(), ridge.facet1())
    } else {
        ridge
    }
}

/// Returns the positions of the misoriented ridges, in slot order.
fn find_misoriented(state: &SimplePuzzleSim) -> (r: Vec<RidgePos>)
    requires
        state.wf(),
    ensures
        r@ == misoriented_ridges(state.pieces@, ridge_points()),
        forall|k: int| 0 <= k < r@.len() ==> (#[trigger] r@[k]).wf(),
{
    let pts = ridges();
    proof {
        lemma_filter_norm(cube_points(), 2);
    }
    let mut found: Vec<RidgePos> = Vec::new();
    let mut i: usize = 0;
    while i < pts.len()
        invariant
            0 <= i <= pts@.len(),
            pts@ == ridge_points(),
            state.wf(),
            forall|k: int|
                0 <= k < pts@.len() ==> (#[trigger] pts@[k]).spec_taxicab_norm() == 2 && cube_points().contains(
                    pts@[k],
                ),
            found@ == misoriented_ridges(state.pieces@, pts@.take(i as int)),
            forall|k: int| 0 <= k < found@.len() ==> (#[trigger] found@[k]).wf(),
        decreases pts@.len() - i,
    {
        let pos = pts[i];
        proof {
            assert(pts@.take(i + 1).drop_last() =~= pts@.take(i as int));
            assert(pts@.take(i + 1).last() == pos);
            let j = choose|j: int| 0 <= j < cube_points().len() && cube_points()[j] == pos;
            lemma_cube_point(j);
        }
        let (init, att) = state.get_piece(pos);
        proof {
            lemma_slot_piece(state.pieces@, pos);
        }
        if piece_is_misoriented(init, att) {
            let ridge = piece_ridge_pos(init, att);
            found.push(ridge);
        }
        i = i + 1;
    }
    assert(pts@.take(pts@.len() as int) =~= pts@);
    found
}

/// Returns the positions of the misoriented ridges sorted by number, if
/// there are four.
fn sorted_misoriented(state: &SimplePuzzleSim) -> (r: Option<[RidgePos; 4]>)
    requires
        state.wf(),
    ensures
        r is Some == (sorted_ridges(state.pieces@).len() == 4),
        r matches Some(a) ==> a@ == sorted_ridges(state.pieces@) && ridges_wf(a@),
{
    let found = find_misoriented(&state);
    proof {
        broadcast use vstd::seq_lib::group_to_multiset_ensures;

        lemma_ridge_leq();
        found@.lemma_sort_by_ensures(ridge_leq());
        assert(found@.sort_by(ridge_leq()).to_multiset().len() == found@.sort_by(ridge_leq()).len());
        assert(found@.to_multiset().len() == found@.len());
    }
    if found.len() != 4 {
        return None;
    }
    let r = sort4([found[0], found[1], found[2], found[3]]);
    proof {
        assert(found@ =~= seq![found@[0], found@[1], found@[2], found@[3]]);
        vstd::seq_lib::lemma_sorted_unique(r@, found@.sort_by(ridge_leq()), ridge_leq());
    }
    Some(r)
}

/// The names of the twists whose setups give the target states.
pub open spec fn target_twists() -> Seq<Option<Twist>> {
    seq![
        spec_from_name("UF"@),
        spec_from_name("UO"@),
        spec_from_name("DF"@),
        spec_from_name("DO"@),
        spec_from_name("FU"@),
        spec_from_name("FO"@),
        spec_from_name("BU"@),
        spec_from_name("BO"@),
        spec_from_name("OU"@),
        spec_from_name("OF"@),
        spec_from_name("IU"@),
        spec_from_name("IF"@),
    ]
}

/// The targets of stage 4 are the states after each of the twists named
/// `UF UO DF DO FU FO BU BO OU OF IU IF`, in that order (two twists of each
/// of the facets `U`, `D`, `F`, `B`, `O` and `I`): [`Stage4::target`] builds
/// the states of the setups of these twists.
pub proof fn law_target_names()
    ensures
        target_twists().len() == 12,
        target_twists()[0] == spec_from_name("UF"@),
        target_twists()[1] == spec_from_name("UO"@),
        target_twists()[2] == spec_from_name("DF"@),
        target_twists()[3] == spec_from_name("DO"@),
        target_twists()[4] == spec_from_name("FU"@),
        target_twists()[5] == spec_from_name("FO"@),
        target_twists()[6] == spec_from_name("BU"@),
        target_twists()[7] == spec_from_name("BO"@),
        target_twists()[8] == spec_from_name("OU"@),
        target_twists()[9] == spec_from_name("OF"@),
        target_twists()[10] == spec_from_name("IU"@),
        target_twists()[11] == spec_from_name("IF"@),
{
}

/// The fields of the stage state of a puzzle: the sorted misoriented
/// ridges, the edge bits and the corner bits.
pub open spec fn state_fields(pieces: Seq<(Vec4, Mat4)>) -> (Seq<RidgePos>, u64, u32) {
    (
        sorted_ridges(pieces),
        pack_bits(all_values(pieces, seq![PieceType::Edge], any_position(), s4_edge_fn()), 2),
        pack_bits(all_values(pieces, seq![PieceType::Corner], any_position(), s4_corner_fn()), 2) as u32,
    )
}

/// The fields of the states after each of the twists (`None` standing for
/// no twist) whose setup the stage accepts.
pub open spec fn target_fields(ts: Seq<Option<Twist>>) -> Seq<(Seq<RidgePos>, u64, u32)>
    decreases ts.len(),
{
    if ts.len() == 0 {
        Seq::empty()
    } else {
        let prev = target_fields(ts.drop_last());
        match ts.last() {
            Some(t) => if <Stage4 as Stage>::accepts(setup_pieces(seq![t])) {
                prev.push(state_fields(setup_pieces(seq![t])))
            } else {
                prev
            },
            None => prev,
        }
    }
}

/// Stage 4: pre-domino.
///
/// ## Invariants
///
/// - All pieces must keep their orientation with respect to the `X` axis.
///
/// ## Move set
///
/// The twists whose rotation keeps the `X` axis.
///
/// ## Target
///
/// - The puzzle is one twist away from domino reduction.
#[derive(Debug, Copy, Clone, PartialEq, Eq, Hash)]
pub struct Stage4 {
    /// The two `M` ridges that are on `R`/`L` (facet on `R`/`L` second), then
    /// the two `R`/`L` ridges that are in `M`, each pair sorted.
    r: [RidgePos; 4],
    /// For each edge location, 2 bits: `11` = belongs in `R`/`L`, good
    /// orientation; `01`, `10` = belongs in `R`/`L`, bad orientation; `00` =
    /// belongs in the `M` slice.
    e: u64,
    /// For each corner location, 2 bits: the axis of its `R`/`L` sticker.
    c: u32,
}

/// Whether a twist's rotation keeps the X axis.
pub open spec fn keeps_x(t: Twist) -> bool {
    t.spec_rot()@[0] / 2 == 0
}

impl Stage4 {
    /// The ridges are well formed.
    #[verifier::type_invariant]
    closed spec fn inv(self) -> bool {
        ridges_wf(self.r@)
    }

    /// The four misoriented ridges.
    pub closed spec fn ridges(self) -> Seq<RidgePos> {
        self.r@
    }

    /// The edge bits.
    pub closed spec fn edge_bits(self) -> u64 {
        self.e
    }

    /// The corner bits.
    pub closed spec fn corner_bits(self) -> u32 {
        self.c
    }

    /// Edge bits of the solved state.
    pub const SOLVED_E: u64 = 0x3cff3cffff3cff3c;
    /// Corner bits of the solved state.
    pub const SOLVED_C: u32 = 0;

    /// The solved state (whose ridges cannot be represented, and are
    /// written as four `RidgePos(0)`).
    pub fn solved() -> (s: Self)
        ensures
            s.ridges() == seq![RidgePos(0u8), RidgePos(0u8), RidgePos(0u8), RidgePos(0u8)],
            s.edge_bits() == Self::SOLVED_E,
            s.corner_bits() == Self::SOLVED_C,
    {
        let z = RidgePos(0);
        let s = Stage4 { r: [z, z, z, z], e: Self::SOLVED_E, c: Self::SOLVED_C };
        assert(s.r@ =~= seq![RidgePos(0u8), RidgePos(0u8), RidgePos(0u8), RidgePos(0u8)]);
        s
    }

    /// The fields of the state.
    pub open spec fn fields(self) -> (Seq<RidgePos>, u64, u32) {
        (self.ridges(), self.edge_bits(), self.corner_bits())
    }

    /// The fields determine the state.
    pub proof fn lemma_fields_injective(a: Self, b: Self)
        ensures
            a.fields() == b.fields() ==> a == b,
    {
        if a.fields() == b.fields() {
            assert(a.r@ =~= b.r@);
            assert(a.r == b.r);
        }
    }

    /// Returns the stage representation of the puzzle, or `None` if the
    /// puzzle does not have exactly two misoriented `M` ridges on `R`/`L`
    /// and two misoriented `R`/`L` ridges in `M`.
    pub fn try_from_state(state: SimplePuzzleSim) -> (r: Option<Self>)
        requires
            state.wf(),
        ensures
            r is Some == <Stage4 as Stage>::accepts(state.pieces@),
            r matches Some(s) ==> s.fields() == state_fields(state.pieces@),
    {
        let r = match sorted_misoriented(&state) {
            Some(r) => r,
            None => return None,
        };
        if !(r[0].facet2().axis().to_u8() == 0 && r[1].facet2().axis().to_u8() == 0 && r[2].is_in_m()
            && r[3].is_in_m()) {
            return None;
        }
        let (e, c) = Self::edge_corner_bits(&state);
        Some(Stage4 { r, e, c })
    }

    /// Returns the target states: the states after each of the twists `UF
    /// UO DF DO FU FO BU BO OU OF IU IF`.
    pub fn target() -> (r: Vec<Stage4>)
        ensures
            r@.map_values(|s: Stage4| s.fields()) == target_fields(target_twists()),
    {
        let names = ["UF", "UO", "DF", "DO", "FU", "FO", "BU", "BO", "OU", "OF", "IU", "IF"];
        let mut r: Vec<Stage4> = Vec::new();
        let mut i: usize = 0;
        while i < 12
            invariant
                0 <= i <= 12,
                names@ == seq!["UF", "UO", "DF", "DO", "FU", "FO", "BU", "BO", "OU", "OF", "IU", "IF"],
                r@.map_values(|s: Stage4| s.fields()) == target_fields(target_twists().take(i as int)),
            decreases 12 - i,
        {
            proof {
                assert(target_twists().take(i + 1).drop_last() =~= target_twists().take(i as int));
            }
            let ghost prev = r@;
            match Twist::from_name(names[i]) {
                Some(t) => {
                    let setup = [t];
                    assert(setup@ =~= seq![t]);
                    let state = SimplePuzzleSim::with_setup(&setup);
                    match Self::try_from_state(state) {
                        Some(s) => {
                            r.push(s);
                            assert(r@.map_values(|s: Stage4| s.fields()) =~= prev.map_values(
                                |s: Stage4| s.fields(),
                            ).push(s.fields()));
                        },
                        None => {},
                    }
                },
                None => {},
            }
            i = i + 1;
        }
        assert(target_twists().take(12) =~= target_twists());
        r
    }

    /// Returns whether two states are equal.
    fn same(self, other: Self) -> (r: bool)
        ensures
            r == (self == other),
    {
        let eq = self.r[0].0 == other.r[0].0 && self.r[1].0 == other.r[1].0 && self.r[2].0 == other.r[2].0
            && self.r[3].0 == other.r[3].0 && self.e == other.e && self.c == other.c;
        proof {
            if eq {
                assert(self.r =~= other.r);
            }
        }
        eq
    }

    /// Returns whether the state is one of the targets.
    pub fn is_target_solved(self, targets: &[Self]) -> (res: bool)
        ensures
            res == targets@.contains(self),
    {
        let mut i: usize = 0;
        while i < targets.len()
            invariant
                0 <= i <= targets@.len(),
                forall|j: int| 0 <= j < i ==> targets@[j] != self,
            decreases targets@.len() - i,
        {
            if self.same(targets[i]) {
                assert(targets@[i as int] == self);
                return true;
            }
            i = i + 1;
        }
        false
    }
}

impl Stage4 {
    /// Returns the edge bits and the corner bits of the pieces.
    fn edge_corner_bits(state: &SimplePuzzleSim) -> (r: (u64, u32))
        requires
            state.wf(),
        ensures
            r.0 == pack_bits(all_values(state.pieces@, seq![PieceType::Edge], any_position(), s4_edge_fn()), 2),
            r.1 == pack_bits(all_values(state.pieces@, seq![PieceType::Corner], any_position(), s4_corner_fn()), 2)
                as u32,
    {
        let keep = |v: Vec4| -> (b: bool)
            ensures
                b == any_position()(v),
        { true };
        let edge_bits = |init: Vec4, att: Mat4| -> (x: u64)
            requires
                init.in_cube(),
                att.is_perm(),
            ensures
                x == s4_edge_fn()(init, att),
        { rl_init_eo(init, att) };
        let corner_bits = |init: Vec4, att: Mat4| -> (x: u64)
            ensures
                x == s4_corner_fn()(init, att),
        { Axis::X.transform_by(att).to_u8() as u64 };
        let edge_types = [PieceType::Edge];
        assert(edge_types@ =~= seq![PieceType::Edge]);
        let e = state.pieces_to_bits(2, &edge_types, keep, edge_bits);
        let corner_types = [PieceType::Corner];
        assert(corner_types@ =~= seq![PieceType::Corner]);
        let c = state.pieces_to_bits(2, &corner_types, keep, corner_bits);
        proof {
            assert(crate::puzzle::sim::closures_compute(keep, edge_bits, any_position(), s4_edge_fn()));
            assert(crate::puzzle::sim::closures_compute(keep, corner_bits, any_position(), s4_corner_fn()));
        }
        (e, c as u32)
    }
}

impl Default for Stage4 {
    fn default() -> (s: Self)
        ensures
            s.ridges() == seq![RidgePos(0u8), RidgePos(0u8), RidgePos(0u8), RidgePos(0u8)],
            s.edge_bits() == Self::SOLVED_E,
            s.corner_bits() == Self::SOLVED_C,
    {
        Self::solved()
    }
}

impl Stage for Stage4 {
    open spec fn can_twist(twist: Twist) -> bool {
        &&& edge_points().len() <= 32
        &&& corner_points().len() <= 16
        &&& slots_ok(edge_points(), FieldRule::EdgeOrCornerX, 2)
        &&& slots_ok(corner_points(), FieldRule::CornerAxis, 2)
        &&& has_twist_row(edge_points(), twist)
        &&& has_twist_row(corner_points(), twist)
        &&& keeps_x(twist)
    }

    /// Returns the twists whose rotation keeps the X axis.
    fn twists() -> (r: TwistSet)
        ensures
            forall|i: int|
                0 <= i < 184 ==> #[trigger] r.has(i) == (Self::can_twist(Twist::spec_from_index(i)) && keeps_x(
                    Twist::spec_from_index(i),
                )),
    {
        let es = edges();
        let cs = corners();
        if es.len() > 32 || cs.len() > 16 || !check_slots(&es, FieldRule::EdgeOrCornerX, 2) || !check_slots(
            &cs,
            FieldRule::CornerAxis,
            2,
        ) {
            let r = TwistSet::empty();
            assert forall|i: int| 0 <= i < 184 implies #[trigger] r.has(i) == (Self::can_twist(
                Twist::spec_from_index(i),
            ) && keeps_x(Twist::spec_from_index(i))) by {
                assert(!Self::can_twist(Twist::spec_from_index(i)));
            }
            return r;
        }
        let le = PermutationLut::new(&es);
        let lc = PermutationLut::new(&cs);
        let ae = le.allowed_twists();
        let ac = lc.allowed_twists();
        let mut r = TwistSet::empty();
        let mut k: u8 = 0;
        while k < 184
            invariant
                0 <= k <= 184,
                es@ == edge_points(),
                cs@ == corner_points(),
                es@.len() <= 32,
                cs@.len() <= 16,
                slots_ok(es@, FieldRule::EdgeOrCornerX, 2),
                slots_ok(cs@, FieldRule::CornerAxis, 2),
                le.describes(es@),
                lc.describes(cs@),
                forall|i: int| 0 <= i < 184 ==> #[trigger] ae.has(i) == le.table@[i] is Some,
                forall|i: int| 0 <= i < 184 ==> #[trigger] ac.has(i) == lc.table@[i] is Some,
                forall|i: int|
                    0 <= i < 184 ==> #[trigger] r.has(i) == (i < k && Self::can_twist(Twist::spec_from_index(i))
                        && keeps_x(Twist::spec_from_index(i))),
            decreases 184 - k,
        {
            let t = Twist::from_index(k);
            let keeps = Axis::X.transform_by(t.rot()).to_u8() == 0;
            proof {
                assert(ae.has(k as int) == le.table@[k as int] is Some);
                assert(ac.has(k as int) == lc.table@[k as int] is Some);
            }
            if ae.contains(t) && ac.contains(t) && keeps {
                r.insert(t);
            }
            k = k + 1;
        }
        r
    }

    /// No rotation follows a twist.
    open spec fn rotation_after(twist: Twist) -> int {
        0
    }

    /// Returns the identity: no rotation follows a twist.
    fn implicit_rotation_after_twist(twist: Twist) -> (r: XyRot) {
        XyRot::ident()
    }

    open spec fn moved(self, twist: Twist, next: Self) -> bool {
        &&& next.ridges() == spec_update_ridges(self.ridges(), twist)
        &&& moves_fields(
            self.edge_bits() as u128,
            next.edge_bits() as u128,
            edge_points(),
            twist,
            2,
            0,
            FieldRule::EdgeOrCornerX,
        )
        &&& moves_fields(
            self.corner_bits() as u128,
            next.corner_bits() as u128,
            corner_points(),
            twist,
            2,
            0,
            FieldRule::CornerAxis,
        )
    }

    /// Moves the ridges as the twist turns them, and the edge and corner
    /// bits as the twist moves the pieces, updating the edge orientations
    /// and corner axes.
    fn do_twist(self, twist: Twist) -> (res: Self)
    {
        proof {
            use_type_invariant(&self);
        }
        let es = edges();
        let cs = corners();
        let r = update_ridges(self.r, twist);
        let e = match twist_fields(self.e as u128, &es, twist, 2, 0, FieldRule::EdgeOrCornerX) {
            Some(y) => y,
            None => {
                assert(false);
                0
            },
        };
        let c = match twist_fields(self.c as u128, &cs, twist, 2, 0, FieldRule::CornerAxis) {
            Some(y) => y,
            None => {
                assert(false);
                0
            },
        };
        proof {
            assert forall|row: Seq<usize>| #[trigger] is_twist_row(edge_points(), twist, row) implies forall|i: int|
                0 <= i < edge_points().len() ==> field(
                    (e as u64) as u128,
                    field_pos(0, #[trigger] row[i] as int, 2) as u128,
                    2,
                ) == field(e, field_pos(0, row[i] as int, 2) as u128, 2) by {
                assert forall|i: int| 0 <= i < edge_points().len() implies field(
                    (e as u64) as u128,
                    field_pos(0, #[trigger] row[i] as int, 2) as u128,
                    2,
                ) == field(e, field_pos(0, row[i] as int, 2) as u128, 2) by {
                    lemma_truncate_u64(e, (2 * row[i]) as u128, 2);
                }
            }
            assert forall|row: Seq<usize>| #[trigger] is_twist_row(corner_points(), twist, row) implies forall|i: int|
                0 <= i < corner_points().len() ==> field(
                    (c as u32) as u128,
                    field_pos(0, #[trigger] row[i] as int, 2) as u128,
                    2,
                ) == field(c, field_pos(0, row[i] as int, 2) as u128, 2) by {
                assert forall|i: int| 0 <= i < corner_points().len() implies field(
                    (c as u32) as u128,
                    field_pos(0, #[trigger] row[i] as int, 2) as u128,
                    2,
                ) == field(c, field_pos(0, row[i] as int, 2) as u128, 2) by {
                    lemma_truncate_u32(c, (2 * row[i]) as u128, 2);
                }
            }
        }
        let res = Stage4 { r, e: e as u64, c: c as u32 };
        assert(Self::moved(self, twist, res));
        res
    }

    open spec fn accepts(pieces: Seq<(Vec4, Mat4)>) -> bool {
        let s = sorted_ridges(pieces);
        &&& s.len() == 4
        &&& s[0].f2() / 2 == 0
        &&& s[1].f2() / 2 == 0
        &&& s[2].spec_is_in_m()
        &&& s[3].spec_is_in_m()
    }

    open spec fn represents(pieces: Seq<(Vec4, Mat4)>, s: Self) -> bool {
        &&& s.ridges() == sorted_ridges(pieces)
        &&& s.edge_bits() == pack_bits( all_values(pieces, seq![PieceType::Edge], any_position(), s4_edge_fn()), 2, )
        &&& s.corner_bits() == pack_bits( all_values(pieces, seq![PieceType::Corner], any_position(), s4_corner_fn()), 2, ) as u32
    }

    /// The misoriented ridges, sorted (see [`sorted_ridges`]), and the edge
    /// and corner bits of the pieces (see [`s4_edge_fn`] and
    /// [`s4_corner_fn`]), in slot order.
    fn from_state(state: SimplePuzzleSim) -> (res: Self)
        ensures
            res.ridges() == sorted_ridges(state.pieces@),
            res.edge_bits() == pack_bits(
                all_values(state.pieces@, seq![PieceType::Edge], any_position(), s4_edge_fn()),
                2,
            ),
            res.corner_bits() == pack_bits(
                all_values(state.pieces@, seq![PieceType::Corner], any_position(), s4_corner_fn()),
                2,
            ) as u32,
    {
        let r = match sorted_misoriented(&state) {
            Some(r) => r,
            None => {
                assert(false);
                sorted_misoriented(&state).unwrap()
            },
        };
        let (e, c) = Self::edge_corner_bits(&state);
        let res = Stage4 { r, e, c };
        assert(Self::represents(state.pieces@, res));
        res
    }
}

/// The ridge with both facets transformed by `m`.
impl TransformByMat4 for RidgePos {
    open spec fn can_transform_by(&self, m: Mat4) -> bool {
        self.wf()
    }

    open spec fn transformed_by(&self, m: Mat4, r: RidgePos) -> bool {
        r == ridge_of(m.apply_idx(self.f1()), m.apply_idx(self.f2())) && r.wf()
    }

    fn transform_by(&self, m: Mat4) -> (r: RidgePos) {
        RidgePos::transform_by(*self, m)
    }
}

} // verus!
