use vstd::prelude::*;

use super::piece_type::{cube_points, PieceType};
use super::twist::{lemma_twist_keeps_side, Twist};
use crate::linalg::axis::axis_of;
use crate::linalg::mat4::{
    lemma_apply_any_in_cube, lemma_apply_ident, lemma_apply_in_cube, lemma_apply_inv_vec,
    lemma_apply_mul_perm, lemma_mul_perm,
};
use crate::linalg::vec4::dim;
use crate::linalg::{Axis, Mat4, Vec4};

verus! {

/// A simple simulation of the puzzle.
#[derive(Debug, Copy, Clone, PartialEq, Eq, Hash)]
pub struct SimplePuzzleSim {
    /// For each current piece location: initial piece location, current
    /// attitude.
    pub pieces: [(Vec4, Mat4); 81],
}

/// Number of the piece position `v` in the cube `[-1, -1, -1, -1]..=[1, 1, 1,
/// 1]`, with the X component varying fastest and the W component slowest.
pub open spec fn cube_index(v: Vec4) -> int {
    (v.0[0] + 1) + 3 * (v.0[1] + 1) + 9 * (v.0[2] + 1) + 27 * (v.0[3] + 1)
}

/// Current position of a piece, given as its initial position and attitude.
pub open spec fn current_pos(p: (Vec4, Mat4)) -> Vec4 {
    p.1.spec_apply(p.0)
}

/// The piece `p`, turned by `r` if `moves`.
pub open spec fn moved_piece(p: (Vec4, Mat4), r: Mat4, moves: bool) -> (Vec4, Mat4) {
    if moves {
        (p.0, r.spec_mul(p.1))
    } else {
        p
    }
}

/// `pieces` after writing each piece of `moved`, in order, at the slot of its
/// current position.
pub open spec fn place_all(pieces: Seq<(Vec4, Mat4)>, moved: Seq<(Vec4, Mat4)>) -> Seq<
    (Vec4, Mat4),
>
    decreases moved.len(),
{
    if moved.len() == 0 {
        pieces
    } else {
        place_all(pieces, moved.drop_last()).update(
            cube_index(current_pos(moved.last())),
            moved.last(),
        )
    }
}

/// Each piece turned by the twist `t` if `t` affects its current position.
pub open spec fn twisted(pieces: Seq<(Vec4, Mat4)>, t: Twist) -> Seq<(Vec4, Mat4)> {
    pieces.map_values(
        |p: (Vec4, Mat4)| moved_piece(p, t.spec_rot(), t.spec_affects(current_pos(p))),
    )
}

/// Each piece turned by `rot`.
pub open spec fn rotated(pieces: Seq<(Vec4, Mat4)>, rot: Mat4) -> Seq<(Vec4, Mat4)> {
    pieces.map_values(|p: (Vec4, Mat4)| moved_piece(p, rot, true))
}

/// The pieces after the twist `t`.
pub open spec fn twist_pieces(pieces: Seq<(Vec4, Mat4)>, t: Twist) -> Seq<(Vec4, Mat4)> {
    place_all(pieces, twisted(pieces, t))
}

/// The pieces after a rotation of the whole puzzle by `rot`.
pub open spec fn rotate_pieces(pieces: Seq<(Vec4, Mat4)>, rot: Mat4) -> Seq<(Vec4, Mat4)> {
    place_all(pieces, rotated(pieces, rot))
}

/// The solved puzzle: every piece at its initial position, unrotated.
pub open spec fn solved_pieces() -> Seq<(Vec4, Mat4)> {
    cube_points().map_values(|v: Vec4| (v, Mat4::spec_ident()))
}

/// The pieces after applying `twists`, in order, to the solved puzzle.
pub open spec fn setup_pieces(twists: Seq<Twist>) -> Seq<(Vec4, Mat4)>
    decreases twists.len(),
{
    if twists.len() == 0 {
        solved_pieces()
    } else {
        twist_pieces(setup_pieces(twists.drop_last()), twists.last())
    }
}

/// Whether there are 81 pieces whose initial positions are in the cube.
pub open spec fn inits_in_cube(pieces: Seq<(Vec4, Mat4)>) -> bool {
    &&& pieces.len() == 81
    &&& forall|i: int| 0 <= i < 81 ==> (#[trigger] pieces[i]).0.in_cube()
}

/// Whether the pieces are a state of the puzzle: each slot holds the piece
/// whose current position is that slot's, with a signed permutation matrix
/// as its attitude, and no initial position occurs twice.
pub open spec fn valid_pieces(pieces: Seq<(Vec4, Mat4)>) -> bool {
    &&& inits_in_cube(pieces)
    &&& forall|i: int|
        0 <= i < 81 ==> {
            &&& (#[trigger] pieces[i]).1.wf()
            &&& pieces[i].1.is_perm()
            &&& cube_index(current_pos(pieces[i])) == i
        }
    &&& forall|i: int, j: int|
        0 <= i < 81 && 0 <= j < 81 && i != j ==> (#[trigger] pieces[i]).0 != (#[trigger] pieces[j]).0
}

/// The number of a position in the cube is in `0..81` and names it.
pub proof fn lemma_cube_index(v: Vec4)
    requires
        v.in_cube(),
    ensures
        0 <= cube_index(v) < 81,
        cube_points()[cube_index(v)] == v,
{
    let i = cube_index(v);
    let min = Vec4([-1i8, -1i8, -1i8, -1i8]);
    let max = Vec4([1i8, 1i8, 1i8, 1i8]);
    assert(dim(min.0[0], max.0[0]) == 3);
    assert(dim(min.0[1], max.0[1]) == 3);
    assert(dim(min.0[2], max.0[2]) == 3);
    assert(i % 3 == v.0[0] + 1);
    assert((i / 3) % 3 == v.0[1] + 1);
    assert((i / 9) % 3 == v.0[2] + 1);
    assert(i / 27 == v.0[3] + 1);
    let p = cube_points()[i];
    assert(p == Vec4::region_point(min, max, i));
    assert(p.0 =~= v.0);
}

/// Every position of the cube has its own number.
pub proof fn lemma_cube_point(i: int)
    requires
        0 <= i < 81,
    ensures
        cube_points()[i].in_cube(),
        cube_index(cube_points()[i]) == i,
{
    let min = Vec4([-1i8, -1i8, -1i8, -1i8]);
    let max = Vec4([1i8, 1i8, 1i8, 1i8]);
    assert(dim(min.0[0], max.0[0]) == 3);
    assert(dim(min.0[1], max.0[1]) == 3);
    assert(dim(min.0[2], max.0[2]) == 3);
    let p = cube_points()[i];
    assert(p == Vec4::region_point(min, max, i));
    assert(p.0[0] == -1 + i % 3);
    assert(p.0[1] == -1 + (i / 3) % 3);
    assert(p.0[2] == -1 + (i / 9) % 3);
    assert(p.0[3] == -1 + i / 27);
}

/// Two positions of the cube with the same number are the same.
pub proof fn lemma_cube_index_injective(u: Vec4, v: Vec4)
    requires
        u.in_cube(),
        v.in_cube(),
        cube_index(u) == cube_index(v),
    ensures
        u == v,
{
    lemma_cube_index(u);
    lemma_cube_index(v);
}

/// Writing pieces whose slots differ leaves each of them in its slot.
proof fn lemma_place_all(base: Seq<(Vec4, Mat4)>, moved: Seq<(Vec4, Mat4)>, n: int)
    requires
        0 <= n <= moved.len(),
        base.len() == 81,
        forall|k: int|
            0 <= k < moved.len() ==> 0 <= #[trigger] cube_index(current_pos(moved[k])) < 81,
        forall|k1: int, k2: int|
            0 <= k1 < moved.len() && 0 <= k2 < moved.len() && k1 != k2 ==> #[trigger] cube_index(
                current_pos(moved[k1]),
            ) != #[trigger] cube_index(current_pos(moved[k2])),
    ensures
        place_all(base, moved.take(n)).len() == 81,
        forall|k: int|
            0 <= k < n ==> place_all(base, moved.take(n))[cube_index(current_pos(moved[k]))]
                == moved[k],
    decreases n,
{
    if n > 0 {
        lemma_place_all(base, moved, n - 1);
        assert(moved.take(n).drop_last() =~= moved.take(n - 1));
        assert(moved.take(n).last() == moved[n - 1]);
        let prev = place_all(base, moved.take(n - 1));
        assert forall|k: int| 0 <= k < n implies place_all(base, moved.take(n))[cube_index(
            current_pos(moved[k]),
        )] == moved[k] by {
            if k < n - 1 {
                assert(cube_index(current_pos(moved[k])) != cube_index(current_pos(moved[n - 1])));
            }
        }
    } else {
        assert(moved.take(0) =~= Seq::<(Vec4, Mat4)>::empty());
    }
}

/// Writing pieces at the slots of their positions keeps the initial
/// positions in the cube.
proof fn lemma_place_all_in_cube(base: Seq<(Vec4, Mat4)>, moved: Seq<(Vec4, Mat4)>)
    requires
        inits_in_cube(base),
        forall|k: int| 0 <= k < moved.len() ==> (#[trigger] moved[k]).0.in_cube(),
    ensures
        inits_in_cube(place_all(base, moved)),
    decreases moved.len(),
{
    if moved.len() > 0 {
        let m = moved.drop_last();
        assert forall|k: int| 0 <= k < m.len() implies (#[trigger] m[k]).0.in_cube() by {
            assert(m[k] == moved[k]);
        }
        lemma_place_all_in_cube(base, m);
        let p = moved.last();
        assert(p == moved[moved.len() - 1]);
        lemma_apply_any_in_cube(p.1, p.0);
        lemma_cube_index(current_pos(p));
    }
}

/// Whether some piece of `moved` goes to slot `j`.
spec fn slot_filled(moved: Seq<(Vec4, Mat4)>, j: int) -> bool {
    exists|k: int| 0 <= k < 81 && #[trigger] cube_index(current_pos(moved[k])) == j
}

/// Moving the pieces of a puzzle state by a signed permutation `r` on a side
/// that `r` keeps (all positions with `side`) gives a puzzle state, in which
/// every moved piece is in the slot of its new position.
pub proof fn lemma_move_valid(
    old: Seq<(Vec4, Mat4)>,
    moved: Seq<(Vec4, Mat4)>,
    r: Mat4,
    side: spec_fn(Vec4) -> bool,
)
    requires
        valid_pieces(old),
        r.wf(),
        r.is_perm(),
        moved.len() == 81,
        forall|k: int|
            0 <= k < 81 ==> #[trigger] moved[k] == moved_piece(
                old[k],
                r,
                side(current_pos(old[k])),
            ),
        forall|v: Vec4| v.in_cube() ==> #[trigger] side(r.spec_apply(v)) == side(v),
    ensures
        valid_pieces(place_all(old, moved)),
        forall|k: int|
            0 <= k < 81 ==> place_all(old, moved)[cube_index(current_pos(moved[k]))] == moved[k],
{
    // Each piece is at the cube position of its slot.
    assert forall|k: int| 0 <= k < 81 implies #[trigger] current_pos(old[k]) == cube_points()[k]
        && current_pos(old[k]).in_cube() by {
        assert(old[k].0.in_cube());
        lemma_apply_in_cube(old[k].1, old[k].0);
        lemma_cube_index(current_pos(old[k]));
    }
    // Where each piece goes.
    assert forall|k: int| 0 <= k < 81 implies {
        &&& (#[trigger] moved[k]).0 == old[k].0
        &&& moved[k].1.wf()
        &&& moved[k].1.is_perm()
        &&& current_pos(moved[k]).in_cube()
        &&& current_pos(moved[k]) == if side(cube_points()[k]) {
            r.spec_apply(cube_points()[k])
        } else {
            cube_points()[k]
        }
    } by {
        assert(current_pos(old[k]) == cube_points()[k]);
        lemma_cube_point(k);
        if side(current_pos(old[k])) {
            lemma_mul_perm(r, old[k].1);
            lemma_apply_mul_perm(r, old[k].1, old[k].0);
            lemma_apply_in_cube(r, cube_points()[k]);
        }
    }
    // No two pieces go to the same slot.
    assert forall|k1: int, k2: int|
        0 <= k1 < moved.len() && 0 <= k2 < moved.len() && k1 != k2 implies #[trigger] cube_index(
        current_pos(moved[k1]),
    ) != #[trigger] cube_index(current_pos(moved[k2])) by {
        let p1 = cube_points()[k1];
        let p2 = cube_points()[k2];
        lemma_cube_point(k1);
        lemma_cube_point(k2);
        if cube_index(current_pos(moved[k1])) == cube_index(current_pos(moved[k2])) {
            lemma_cube_index_injective(current_pos(moved[k1]), current_pos(moved[k2]));
            lemma_apply_inv_vec(r, p1);
            lemma_apply_inv_vec(r, p2);
            if side(p1) && side(p2) {
                assert(p1 == p2);
            } else if side(p1) {
                assert(side(r.spec_apply(p1)) == side(p1));
            } else if side(p2) {
                assert(side(r.spec_apply(p2)) == side(p2));
            }
            assert(p1 == p2);
            assert(false);
        }
    }
    assert forall|k: int| 0 <= k < moved.len() implies 0 <= #[trigger] cube_index(
        current_pos(moved[k]),
    ) < 81 by {
        lemma_cube_index(current_pos(moved[k]));
    }
    lemma_place_all(old, moved, 81);
    assert(moved.take(81) =~= moved);
    let res = place_all(old, moved);
    // Every slot receives a piece: the one that the inverse rotation finds.
    assert forall|j: int| 0 <= j < 81 implies #[trigger] slot_filled(moved, j) by {
        lemma_cube_point(j);
        let q = cube_points()[j];
        let u = r.spec_inv().spec_apply(q);
        lemma_apply_inv_vec(r, q);
        assert(side(r.spec_apply(u)) == side(u));
        let s = if side(q) {
            u
        } else {
            q
        };
        let k = cube_index(s);
        lemma_cube_index(s);
        assert(cube_points()[k] == s);
        assert(current_pos(moved[k]) == q);
    }
    assert forall|j: int| 0 <= j < 81 implies {
        &&& (#[trigger] res[j]).0.in_cube()
        &&& res[j].1.wf()
        &&& res[j].1.is_perm()
        &&& cube_index(current_pos(res[j])) == j
    } by {
        assert(slot_filled(moved, j));
        let k = choose|k: int| 0 <= k < 81 && #[trigger] cube_index(current_pos(moved[k])) == j;
        assert(res[j] == moved[k]);
    }
    assert forall|i: int, j: int| 0 <= i < 81 && 0 <= j < 81 && i != j implies (
    #[trigger] res[i]).0 != (#[trigger] res[j]).0 by {
        assert(slot_filled(moved, i));
        assert(slot_filled(moved, j));
        let ki = choose|k: int| 0 <= k < 81 && #[trigger] cube_index(current_pos(moved[k])) == i;
        let kj = choose|k: int| 0 <= k < 81 && #[trigger] cube_index(current_pos(moved[k])) == j;
        assert(res[i] == moved[ki]);
        assert(res[j] == moved[kj]);
        assert(old[ki].0 != old[kj].0);
    }
}

/// A twist of a puzzle state gives a puzzle state, with every piece that the
/// twist affects turned by the twist's rotation and every other piece left
/// in place.
pub proof fn law_twist_keeps_valid(pieces: Seq<(Vec4, Mat4)>, t: Twist)
    requires
        valid_pieces(pieces),
        t.inv(),
    ensures
        valid_pieces(twist_pieces(pieces, t)),
        forall|k: int|
            0 <= k < 81 ==> twist_pieces(pieces, t)[cube_index(
                current_pos(#[trigger] twisted(pieces, t)[k]),
            )] == twisted(pieces, t)[k],
{
    let r = t.spec_rot();
    let side = |v: Vec4| t.spec_affects(v);
    assert forall|v: Vec4| v.in_cube() implies #[trigger] side(r.spec_apply(v)) == side(v) by {
        lemma_twist_keeps_side(t, v);
    }
    lemma_cube_point(0);
    lemma_twist_keeps_side(t, cube_points()[0]);
    lemma_move_valid(pieces, twisted(pieces, t), r, side);
}

/// A rotation of the whole puzzle by a signed permutation matrix gives a
/// puzzle state.
pub proof fn law_rotation_keeps_valid(pieces: Seq<(Vec4, Mat4)>, rot: Mat4)
    requires
        valid_pieces(pieces),
        rot.wf(),
        rot.is_perm(),
    ensures
        valid_pieces(rotate_pieces(pieces, rot)),
{
    let side = |v: Vec4| true;
    lemma_move_valid(pieces, rotated(pieces, rot), rot, side);
}

/// The solved puzzle is a puzzle state.
pub proof fn lemma_solved_valid()
    ensures
        valid_pieces(solved_pieces()),
{
    let s = solved_pieces();
    Mat4::lemma_ident();
    assert forall|i: int| 0 <= i < 81 implies {
        &&& (#[trigger] s[i]).0.in_cube()
        &&& s[i].1.wf()
        &&& s[i].1.is_perm()
        &&& cube_index(current_pos(s[i])) == i
    } by {
        lemma_cube_point(i);
        lemma_apply_ident(cube_points()[i]);
    }
    assert forall|i: int, j: int| 0 <= i < 81 && 0 <= j < 81 && i != j implies (
    #[trigger] s[i]).0 != (#[trigger] s[j]).0 by {
        lemma_cube_point(i);
        lemma_cube_point(j);
    }
}

/// Every puzzle reached from the solved state by twists is a puzzle state.
pub proof fn law_setup_valid(twists: Seq<Twist>)
    requires
        forall|i: int| 0 <= i < twists.len() ==> (#[trigger] twists[i]).inv(),
    ensures
        valid_pieces(setup_pieces(twists)),
    decreases twists.len(),
{
    if twists.len() == 0 {
        lemma_solved_valid();
    } else {
        let d = twists.drop_last();
        assert forall|i: int| 0 <= i < d.len() implies (#[trigger] d[i]).inv() by {
            assert(d[i] == twists[i]);
        }
        law_setup_valid(d);
        assert(twists.last() == twists[twists.len() - 1]);
        law_twist_keeps_valid(setup_pieces(d), twists.last());
    }
}

/// Values of the pieces of type `ty` in the first `k` slots whose current
/// position satisfies `keep`, in slot order: `value` of the piece's initial
/// position and attitude.
pub open spec fn type_values(
    pieces: Seq<(Vec4, Mat4)>,
    ty: PieceType,
    keep: spec_fn(Vec4) -> bool,
    value: spec_fn(Vec4, Mat4) -> u64,
    k: int,
) -> Seq<u64>
    decreases k,
{
    if k <= 0 {
        Seq::empty()
    } else {
        let prev = type_values(pieces, ty, keep, value, k - 1);
        let p = pieces[k - 1];
        if p.0.spec_taxicab_norm() == ty.count() && keep(current_pos(p)) {
            prev.push(value(p.0, p.1))
        } else {
            prev
        }
    }
}

/// Values of the pieces, type after type as in `types`.
pub open spec fn all_values(
    pieces: Seq<(Vec4, Mat4)>,
    types: Seq<PieceType>,
    keep: spec_fn(Vec4) -> bool,
    value: spec_fn(Vec4, Mat4) -> u64,
) -> Seq<u64>
    decreases types.len(),
{
    if types.len() == 0 {
        Seq::empty()
    } else {
        all_values(pieces, types.drop_last(), keep, value) + type_values(
            pieces,
            types.last(),
            keep,
            value,
            pieces.len() as int,
        )
    }
}

/// The values packed into one integer, `bits` bits apart, the first value in
/// the lowest bits (higher bits are lost).
pub open spec fn pack_bits(vals: Seq<u64>, bits: u64) -> u64
    decreases vals.len(),
{
    if vals.len() == 0 {
        0
    } else {
        (pack_bits(vals.drop_first(), bits) << bits) | vals[0]
    }
}

/// Whether the piece `p` is of one of the types.
pub open spec fn of_types(p: (Vec4, Mat4), types: Seq<PieceType>) -> bool {
    exists|t: int| 0 <= t < types.len() && p.0.spec_taxicab_norm() == #[trigger] types[t].count()
}

/// Whether the closures `f` and `m` compute the functions `keep` and `value`.
pub open spec fn closures_compute<F: Fn(Vec4) -> bool, M: Fn(Vec4, Mat4) -> u64>(
    f: F,
    m: M,
    keep: spec_fn(Vec4) -> bool,
    value: spec_fn(Vec4, Mat4) -> u64,
) -> bool {
    &&& forall|v: Vec4, b: bool| call_ensures(f, (v,), b) ==> b == keep(v)
    &&& forall|i: Vec4, a: Mat4, x: u64| call_ensures(m, (i, a), x) ==> x == value(i, a)
}

impl Default for SimplePuzzleSim {
    /// The solved puzzle.
    fn default() -> (r: Self)
        ensures
            r.pieces@ == solved_pieces(),
    {
        let min = Vec4([-1i8, -1i8, -1i8, -1i8]);
        let max = Vec4([1i8, 1i8, 1i8, 1i8]);
        proof {
            Vec4::lemma_region_size_cube(min, max);
        }
        let points = Vec4::region(min, max);
        let ident = Mat4::ident();
        let mut pieces = [(Vec4([0i8, 0i8, 0i8, 0i8]), ident); 81];
        let mut i: usize = 0;
        while i < 81
            invariant
                0 <= i <= 81,
                points@.len() == 81,
                forall|j: int| 0 <= j < 81 ==> #[trigger] points@[j] == cube_points()[j],
                ident == Mat4::spec_ident(),
                forall|j: int| 0 <= j < i ==> #[trigger] pieces@[j] == solved_pieces()[j],
            decreases 81 - i,
        {
            pieces[i] = (points[i], ident);
            i = i + 1;
        }
        assert(pieces@ =~= solved_pieces());
        SimplePuzzleSim { pieces }
    }
}

impl SimplePuzzleSim {
    /// Whether the pieces are a state of the puzzle.
    pub open spec fn wf(self) -> bool {
        valid_pieces(self.pieces@)
    }

    /// Whether the initial positions of the pieces are in the cube.
    pub open spec fn inits_in_cube(self) -> bool {
        inits_in_cube(self.pieces@)
    }

    /// Returns the solved puzzle after the twists, applied in order.
    pub fn with_setup(twists: &[Twist]) -> (r: Self)
        ensures
            r.pieces@ == setup_pieces(twists@),
            r.wf(),
    {
        let mut state = Self::default();
        proof {
            lemma_solved_valid();
        }
        let mut i: usize = 0;
        while i < twists.len()
            invariant
                0 <= i <= twists@.len(),
                state.pieces@ == setup_pieces(twists@.take(i as int)),
                state.wf(),
            decreases twists@.len() - i,
        {
            if i == 0 {
                assert(twists@.take(0) =~= Seq::<Twist>::empty());
            }
            let t = twists[i];
            proof {
                assert(twists@.take(i + 1).drop_last() =~= twists@.take(i as int));
                assert(twists@.take(i + 1).last() == t);
            }
            state = state.do_twist(t);
            i = i + 1;
        }
        if twists.len() == 0 {
            assert(twists@.take(0) =~= twists@);
        }
        assert(twists@.take(twists@.len() as int) =~= twists@);
        state
    }

    /// Returns the piece in the slot of a position: its initial position and
    /// its attitude.
    pub fn get_piece(&self, pos: Vec4) -> (r: (Vec4, Mat4))
        requires
            pos.in_cube(),
        ensures
            r == self.pieces@[cube_index(pos)],
    {
        self.pieces[Self::index_of(pos)]
    }

    /// Returns the slot of a position.
    fn index_of(pos: Vec4) -> (r: usize)
        requires
            pos.in_cube(),
        ensures
            r == cube_index(pos),
            r < 81,
    {
        let x = pos.0[0] as i16;
        let y = pos.0[1] as i16;
        let z = pos.0[2] as i16;
        let w = pos.0[3] as i16;
        ((x + 1) + (y + 1) * 3 + (z + 1) * 9 + (w + 1) * 27) as usize
    }

    /// Puts a piece in the slot of its current position.
    fn set_piece(&mut self, init: Vec4, att: Mat4)
        requires
            init.in_cube(),
        ensures
            final(self).pieces@ == old(self).pieces@.update(
                cube_index(current_pos((init, att))),
                (init, att),
            ),
    {
        proof {
            lemma_apply_any_in_cube(att, init);
        }
        let pos = att.mul_vec(init);
        let i = Self::index_of(pos);
        self.pieces[i] = (init, att);
    }

    /// Returns the puzzle after a twist: each piece that the twist affects is
    /// turned by the twist's rotation.
    pub fn do_twist(self, twist: Twist) -> (r: Self)
        requires
            self.inits_in_cube(),
        ensures
            r.pieces@ == twist_pieces(self.pieces@, twist),
            r.inits_in_cube(),
            self.wf() ==> r.wf(),
    {
        let ghost moved = twisted(self.pieces@, twist);
        let mut new_state = self;
        let mut k: usize = 0;
        while k < 81
            invariant
                0 <= k <= 81,
                self.inits_in_cube(),
                moved == twisted(self.pieces@, twist),
                new_state.pieces@ == place_all(self.pieces@, moved.take(k as int)),
            decreases 81 - k,
        {
            if k == 0 {
                assert(moved.take(0) =~= Seq::<(Vec4, Mat4)>::empty());
            }
            let (init, att) = self.pieces[k];
            assert(self.pieces@[k as int].0.in_cube());
            let cur = att.mul_vec(init);
            let new_att = if twist.affects(cur) {
                twist.rot().mul(att)
            } else {
                att
            };
            assert(moved[k as int] == (init, new_att));
            new_state.set_piece(init, new_att);
            assert(moved.take(k + 1).drop_last() =~= moved.take(k as int));
            k = k + 1;
        }
        assert(moved.take(81) =~= moved);
        proof {
            assert forall|k: int| 0 <= k < moved.len() implies (#[trigger] moved[k]).0.in_cube() by {
                assert(self.pieces@[k].0.in_cube());
            }
            lemma_place_all_in_cube(self.pieces@, moved);
            if self.wf() {
                use_type_invariant(&twist);
                law_twist_keeps_valid(self.pieces@, twist);
            }
        }
        new_state
    }

    /// Returns the puzzle after turning every piece by `rot`.
    pub fn do_full_puzzle_rotation(self, rot: Mat4) -> (r: Self)
        requires
            self.inits_in_cube(),
        ensures
            r.pieces@ == rotate_pieces(self.pieces@, rot),
            r.inits_in_cube(),
            self.wf() && rot.is_perm() ==> r.wf(),
    {
        let ghost moved = rotated(self.pieces@, rot);
        let mut new_state = self;
        let mut k: usize = 0;
        while k < 81
            invariant
                0 <= k <= 81,
                self.inits_in_cube(),
                moved == rotated(self.pieces@, rot),
                new_state.pieces@ == place_all(self.pieces@, moved.take(k as int)),
            decreases 81 - k,
        {
            if k == 0 {
                assert(moved.take(0) =~= Seq::<(Vec4, Mat4)>::empty());
            }
            let (init, att) = self.pieces[k];
            assert(self.pieces@[k as int].0.in_cube());
            let new_att = rot.mul(att);
            assert(moved[k as int] == (init, new_att));
            new_state.set_piece(init, new_att);
            assert(moved.take(k + 1).drop_last() =~= moved.take(k as int));
            k = k + 1;
        }
        assert(moved.take(81) =~= moved);
        proof {
            assert forall|k: int| 0 <= k < moved.len() implies (#[trigger] moved[k]).0.in_cube() by {
                assert(self.pieces@[k].0.in_cube());
            }
            lemma_place_all_in_cube(self.pieces@, moved);
            if self.wf() && rot.is_perm() {
                use_type_invariant(&rot);
                law_rotation_keeps_valid(self.pieces@, rot);
            }
        }
        new_state
    }

    /// Returns whether the sticker currently at the given position was
    /// originally on `test_axis`: the attitude of the piece that holds the
    /// sticker takes `test_axis` to the sticker's axis.
    pub fn is_sticker_from_axis(&self, sticker_vector: Vec4, test_axis: Axis) -> (r: bool)
        requires
            sticker_vector.spec_sticker_piece().in_cube(),
            forall|i: int| 0 <= i < 4 ==> -128 < #[trigger] sticker_vector.comp(i),
        ensures
            r == (self.pieces@[cube_index(sticker_vector.spec_sticker_piece())].1@[test_axis.idx()]
                / 2 == sticker_vector.spec_max_abs_index()),
    {
        let (piece_pos, ax) = sticker_vector.unwrap_sticker();
        let (_init, att) = self.get_piece(piece_pos);
        test_axis.transform_by(att) == ax
    }

    /// Packs a value for each selected piece into an integer, `bits_per_piece`
    /// bits apart, the first value in the lowest bits. Pieces are taken type
    /// after type as in `piece_types`, in slot order, where the current
    /// position satisfies `filter_by_current_pos`; the value is
    /// `map_init_pos_and_attitude` of the initial position and attitude.
    pub fn pieces_to_bits(
        &self,
        bits_per_piece: u8,
        piece_types: &[PieceType],
        filter_by_current_pos: impl Fn(Vec4) -> bool,
        map_init_pos_and_attitude: impl Fn(Vec4, Mat4) -> u64,
    ) -> (r: u64)
        requires
            self.inits_in_cube(),
            bits_per_piece < 64,
            forall|k: int|
                0 <= k < 81 && of_types(#[trigger] self.pieces@[k], piece_types@) ==> call_requires(
                    filter_by_current_pos,
                    (current_pos(self.pieces@[k]),),
                ) && call_requires(map_init_pos_and_attitude, (self.pieces@[k].0, self.pieces@[k].1)),
        ensures
            forall|keep: spec_fn(Vec4) -> bool, value: spec_fn(Vec4, Mat4) -> u64|
                #![trigger all_values(self.pieces@, piece_types@, keep, value)]
                closures_compute(filter_by_current_pos, map_init_pos_and_attitude, keep, value)
                    ==> r == pack_bits(
                    all_values(self.pieces@, piece_types@, keep, value),
                    bits_per_piece as u64,
                ),
    {
        let mut vals: Vec<u64> = Vec::new();
        let mut ti: usize = 0;
        while ti < piece_types.len()
            invariant
                0 <= ti <= piece_types@.len(),
                self.inits_in_cube(),
                forall|k: int|
                    0 <= k < 81 && of_types(#[trigger] self.pieces@[k], piece_types@) ==> call_requires(
                        filter_by_current_pos,
                        (current_pos(self.pieces@[k]),),
                    ) && call_requires(map_init_pos_and_attitude, (self.pieces@[k].0, self.pieces@[k].1)),
                forall|keep: spec_fn(Vec4) -> bool, value: spec_fn(Vec4, Mat4) -> u64|
                    #![trigger all_values(self.pieces@, piece_types@.take(ti as int), keep, value)]
                    closures_compute(filter_by_current_pos, map_init_pos_and_attitude, keep, value)
                        ==> vals@ == all_values(self.pieces@, piece_types@.take(ti as int), keep, value),
            decreases piece_types@.len() - ti,
        {
            let ty = piece_types[ti];
            let n = ty.sticker_count();
            let ghost start = vals@;
            let mut k: usize = 0;
            while k < 81
                invariant
                    0 <= k <= 81,
                    self.inits_in_cube(),
                    n == ty.count(),
                    ti < piece_types@.len(),
                    ty == piece_types@[ti as int],
                    forall|k: int|
                        0 <= k < 81 && of_types(#[trigger] self.pieces@[k], piece_types@) ==> call_requires(
                            filter_by_current_pos,
                            (current_pos(self.pieces@[k]),),
                        ) && call_requires(map_init_pos_and_attitude, (self.pieces@[k].0, self.pieces@[k].1)),
                    forall|keep: spec_fn(Vec4) -> bool, value: spec_fn(Vec4, Mat4) -> u64|
                        #![trigger type_values(self.pieces@, ty, keep, value, k as int)]
                        closures_compute(filter_by_current_pos, map_init_pos_and_attitude, keep, value)
                            ==> vals@ == all_values(self.pieces@, piece_types@.take(ti as int), keep, value)
                            + type_values(self.pieces@, ty, keep, value, k as int),
                decreases 81 - k,
            {
                let (init, att) = self.pieces[k];
                assert(self.pieces@[k as int].0.in_cube());
                let ghost before = vals@;
                let mut took = false;
                let mut got: u64 = 0;
                let mut cur = Vec4::zero();
                if init.taxicab_norm() == n {
                    assert(of_types(self.pieces@[k as int], piece_types@));
                    cur = att.mul_vec(init);
                    if filter_by_current_pos(cur) {
                        got = map_init_pos_and_attitude(init, att);
                        vals.push(got);
                        took = true;
                    }
                }
                proof {
                    assert forall|keep: spec_fn(Vec4) -> bool, value: spec_fn(Vec4, Mat4) -> u64|
                        closures_compute(filter_by_current_pos, map_init_pos_and_attitude, keep, value)
                        implies #[trigger] type_values(self.pieces@, ty, keep, value, k + 1) == 
                        type_values(self.pieces@, ty, keep, value, k as int) + (if took { seq![got] } else { Seq::empty() })
                    by {
                        let p = self.pieces@[k as int];
                        assert(p == (init, att));
                        if init.spec_taxicab_norm() == ty.count() {
                            assert(cur == current_pos(p));
                        }
                        if took {
                            assert(keep(current_pos(p)));
                            assert(got == value(init, att));
                        }
                    }
                    assert forall|keep: spec_fn(Vec4) -> bool, value: spec_fn(Vec4, Mat4) -> u64|
                        closures_compute(filter_by_current_pos, map_init_pos_and_attitude, keep, value)
                        implies vals@ == all_values(self.pieces@, piece_types@.take(ti as int), keep, value)
                            + #[trigger] type_values(self.pieces@, ty, keep, value, k + 1)
                    by {
                        assert(before == all_values(self.pieces@, piece_types@.take(ti as int), keep, value)
                            + type_values(self.pieces@, ty, keep, value, k as int));
                        assert(type_values(self.pieces@, ty, keep, value, k + 1) ==
                            type_values(self.pieces@, ty, keep, value, k as int) + (if took { seq![got] } else { Seq::empty() }));
                        if took {
                            assert(vals@ =~= before.push(got));
                        }
                    }
                }
                k = k + 1;
            }
            proof {
                let t1 = piece_types@.take(ti + 1);
                assert(t1.drop_last() =~= piece_types@.take(ti as int));
                assert(t1.last() == ty);
                assert forall|keep: spec_fn(Vec4) -> bool, value: spec_fn(Vec4, Mat4) -> u64|
                    closures_compute(filter_by_current_pos, map_init_pos_and_attitude, keep, value)
                    implies vals@ == #[trigger] all_values(self.pieces@, t1, keep, value)
                by {
                    assert(type_values(self.pieces@, ty, keep, value, 81) == type_values(self.pieces@, ty, keep, value, 81int));
                }
            }
            ti = ti + 1;
        }
        assert(piece_types@.take(piece_types@.len() as int) =~= piece_types@);
        let bits = bits_per_piece as u64;
        let mut acc: u64 = 0;
        let mut i: usize = vals.len();
        while i > 0
            invariant
                0 <= i <= vals@.len(),
                bits < 64,
                acc == pack_bits(vals@.subrange(i as int, vals@.len() as int), bits),
            decreases i,
        {
            if i == vals.len() {
                assert(vals@.subrange(i as int, vals@.len() as int) =~= Seq::<u64>::empty());
            }
            i = i - 1;
            let ghost tail = vals@.subrange(i as int, vals@.len() as int);
            assert(tail.drop_first() =~= vals@.subrange(i + 1, vals@.len() as int));
            assert(tail[0] == vals@[i as int]);
            acc = (acc << bits) | vals[i];
        }
        if vals.len() == 0 {
            assert(vals@.subrange(0, 0) =~= vals@);
        }
        assert(vals@.subrange(0, vals@.len() as int) =~= vals@);
        acc
    }
}

} // verus!
