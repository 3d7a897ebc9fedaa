//! Pruning tables made by an exhaustive search: for each key of a state
//! reached from a start state, the fewest twists found to reach it.
use std::collections::HashMap;
use std::hash::Hash;

use vstd::prelude::*;

use crate::prune::trie::{lemma_reached_by_step, lemma_reached_start, reached_by, SubsetTrie};
use crate::puzzle::{Twist, TwistSet};
use crate::search::is_path;
use crate::stages::{Stage, Stage1};

verus! {

broadcast use vstd::std_specs::hash::group_hash_axioms;

/// Whether some state reached from `start` by `d` twists has the key `k`.
pub open spec fn key_found<S: Stage, K, F: Fn(S) -> K>(start: S, get_key: F, k: K, d: int) -> bool {
    exists|s: S| #[trigger] reached_by(start, d, s) && call_ensures(get_key, (s,), k)
}

/// Whether the stage's moves give one state for each state and twist that
/// the stage can apply.
pub open spec fn moves_deterministic<S: Stage>() -> bool {
    forall|s: S, t: Twist, a: S, b: S|
        S::can_twist(t) && #[trigger] S::moved(s, t, a) && #[trigger] S::moved(s, t, b) ==> a == b
}

/// Whether the key function gives one key for each state.
pub open spec fn key_deterministic<S, K, F: Fn(S) -> K>(get_key: F) -> bool {
    forall|s: S, a: K, b: K| #[trigger] call_ensures(get_key, (s,), a) && #[trigger] call_ensures(get_key, (s,), b) ==> a == b
}

/// Whether every key of the table is at most `bound` and found at its
/// depth (see [`key_found`]).
pub open spec fn entries_sound<S: Stage, K, F: Fn(S) -> K>(start: S, get_key: F, m: Map<K, u8>, bound: int) -> bool {
    forall|k: K| #[trigger] m.contains_key(k) ==> m[k] <= bound && key_found(start, get_key, k, m[k] as int)
}

/// Whether the key of every state reached from `start` by between `lo` and
/// `hi` twists (values of the type, whose invariant holds) that the stage
/// can apply is in the table, with a depth no
/// greater than the number of twists.
pub open spec fn reaches_within<S: Stage, K, F: Fn(S) -> K>(start: S, get_key: F, m: Map<K, u8>, lo: int, hi: int) -> bool {
    forall|ts: Seq<Twist>, states: Seq<S>, k: K|
        #![trigger is_path(start, ts, states), call_ensures(get_key, (states.last(),), k)]
        lo <= ts.len() <= hi && (forall|i: int| 0 <= i < ts.len() ==> S::can_twist(#[trigger] ts[i]) && ts[i].inv()) && is_path(
            start,
            ts,
            states,
        ) && call_ensures(get_key, (states.last(),), k) ==> m.contains_key(k) && m[k] <= ts.len()
}

/// Whether every state reached from `start` by between `lo` and `hi`
/// twists (values of the type, whose invariant holds) that the stage can
/// apply has a key, given by `get_key`, in the table, with a depth no
/// greater than the number of twists.
pub open spec fn reaches_found<S: Stage, K, F: Fn(S) -> K>(start: S, get_key: F, m: Map<K, u8>, lo: int, hi: int) -> bool {
    forall|ts: Seq<Twist>, states: Seq<S>|
        #![trigger is_path(start, ts, states)]
        lo <= ts.len() <= hi && (forall|i: int| 0 <= i < ts.len() ==> S::can_twist(#[trigger] ts[i]) && ts[i].inv()) && is_path(
            start,
            ts,
            states,
        ) ==> exists|k: K| #[trigger] call_ensures(get_key, (states.last(),), k) && m.contains_key(k) && m[k] <= ts.len()
}

/// In a table that is sound and complete up to `max` (as the tables that
/// [`PruningTable::make_pruning_table`] makes are, when the moves and keys
/// are deterministic), a key reached by a sequence of the stage's twists is
/// in the table when the sequence is no longer than `max`, and then its
/// depth is at most the sequence's length while some sequence of exactly
/// that depth reaches the key: the depth is the least.
pub proof fn lemma_table_depth_least<S: Stage, K, F: Fn(S) -> K>(
    start: S,
    get_key: F,
    m: Map<K, u8>,
    max: int,
    ts: Seq<Twist>,
    states: Seq<S>,
    k: K,
)
    requires
        entries_sound(start, get_key, m, max),
        reaches_within(start, get_key, m, 0, max),
        forall|i: int| 0 <= i < ts.len() ==> S::can_twist(#[trigger] ts[i]) && ts[i].inv(),
        is_path(start, ts, states),
        call_ensures(get_key, (states.last(),), k),
        ts.len() <= max || m.contains_key(k),
    ensures
        m.contains_key(k),
        m[k] <= ts.len(),
        key_found(start, get_key, k, m[k] as int),
{
}

/// Tries every sequence of `depth - d` twists of the set from `state`,
/// reached from `solved` by `d` twists, giving each key reached at `depth`
/// that the table does not have yet the value `depth`.
fn visit<S: Stage, K: Copy + Eq + Hash, F: Fn(S) -> K>(
    state: S,
    d: u8,
    depth: u8,
    get_key: &F,
    allowed: &TwistSet,
    ret: &mut HashMap<K, u8>,
    Ghost(solved): Ghost<S>,
    Ghost(max): Ghost<int>,
)
    requires
        vstd::std_specs::hash::obeys_key_model::<K>(),
        forall|s: S| #[trigger] get_key.requires((s,)),
        forall|i: int| 0 <= i < 184 ==> #[trigger] allowed.has(i) == S::can_twist(Twist::spec_from_index(i)),
        d < depth,
        depth <= max,
        reached_by(solved, d as int, state),
        entries_sound(solved, *get_key, old(ret)@, max),
        forall|k: K| #[trigger] old(ret)@.contains_key(k) ==> old(ret)@[k] <= depth,
    ensures
        entries_sound(solved, *get_key, final(ret)@, max),
        forall|k: K| #[trigger] old(ret)@.contains_key(k) ==> final(ret)@.contains_key(k) && final(ret)@[k] == old(ret)@[k],
        forall|k: K| #[trigger] final(ret)@.contains_key(k) && !old(ret)@.contains_key(k) ==> final(ret)@[k] == depth,
        moves_deterministic::<S>() && key_deterministic(*get_key) ==> forall|ts: Seq<Twist>, states: Seq<S>, k: K|
            #![trigger is_path(state, ts, states), call_ensures(*get_key, (states.last(),), k)]
            ts.len() == depth - d && (forall|i: int| 0 <= i < ts.len() ==> S::can_twist(#[trigger] ts[i]) && ts[i].inv()) && is_path(
                state,
                ts,
                states,
            ) && call_ensures(*get_key, (states.last(),), k) ==> final(ret)@.contains_key(k) && final(ret)@[k] <= depth,
        moves_deterministic::<S>() ==> forall|ts: Seq<Twist>, states: Seq<S>|
            #![trigger is_path(state, ts, states)]
            ts.len() == depth - d && (forall|i: int| 0 <= i < ts.len() ==> S::can_twist(#[trigger] ts[i]) && ts[i].inv()) && is_path(
                state,
                ts,
                states,
            ) ==> exists|kk: K| #[trigger] call_ensures(*get_key, (states.last(),), kk) && final(ret)@.contains_key(kk)
                && final(ret)@[kk] <= depth,
    decreases depth - d,
{
    let ghost start = ret@;
    let mut k: u8 = 0;
    proof {
        assert forall|ts: Seq<Twist>| #![trigger ts[0]] ts.len() > 0 implies !(ts[0].idx() < 0) by {
            ts[0].lemma_idx();
        }
    }
    while k < 184
        invariant
            0 <= k <= 184,
            vstd::std_specs::hash::obeys_key_model::<K>(),
            forall|s: S| #[trigger] get_key.requires((s,)),
            forall|i: int| 0 <= i < 184 ==> #[trigger] allowed.has(i) == S::can_twist(Twist::spec_from_index(i)),
            d < depth,
            depth <= max,
            reached_by(solved, d as int, state),
            entries_sound(solved, *get_key, ret@, max),
            forall|kk: K| #[trigger] start.contains_key(kk) ==> ret@.contains_key(kk) && ret@[kk] == start[kk],
            forall|kk: K| #[trigger] ret@.contains_key(kk) && !start.contains_key(kk) ==> ret@[kk] == depth,
            forall|kk: K| #[trigger] start.contains_key(kk) ==> start[kk] <= depth,
            moves_deterministic::<S>() && key_deterministic(*get_key) ==> forall|ts: Seq<Twist>, states: Seq<S>, kk: K|
                #![trigger is_path(state, ts, states), call_ensures(*get_key, (states.last(),), kk)]
                ts.len() == depth - d && ts[0].idx() < k && (forall|i: int|
                    0 <= i < ts.len() ==> S::can_twist(#[trigger] ts[i]) && ts[i].inv()) && is_path(state, ts, states) && call_ensures(
                    *get_key,
                    (states.last(),),
                    kk,
                ) ==> ret@.contains_key(kk) && ret@[kk] <= depth,
            moves_deterministic::<S>() ==> forall|ts: Seq<Twist>, states: Seq<S>|
                #![trigger is_path(state, ts, states)]
                ts.len() == depth - d && ts[0].idx() < k && (forall|i: int|
                    0 <= i < ts.len() ==> S::can_twist(#[trigger] ts[i]) && ts[i].inv()) && is_path(state, ts, states)
                    ==> exists|kk: K| #[trigger] call_ensures(*get_key, (states.last(),), kk) && ret@.contains_key(kk)
                    && ret@[kk] <= depth,
        decreases 184 - k,
    {
        let twist = Twist::from_index(k);
        let ghost mid = ret@;
        if allowed.contains(twist) {
            let new_state = state.do_twist(twist);
            proof {
                use_type_invariant(&twist);
                lemma_reached_by_step(solved, d as int, state, twist, new_state);
            }
            let ghost mut kw: K = vstd::pervasive::arbitrary();
            if d + 1 == depth {
                let key = get_key(new_state);
                proof {
                    kw = key;
                }
                if !ret.contains_key(&key) {
                    ret.insert(key, depth);
                    proof {
                        assert(key_found(solved, *get_key, key, depth as int));
                    }
                }
                assert(ret@.contains_key(key) && ret@[key] <= depth);
                assert(key_deterministic(*get_key) ==> forall|kk: K| #[trigger] call_ensures(*get_key, (new_state,), kk) ==> kk == key);
                assert(call_ensures(*get_key, (new_state,), kw) && ret@.contains_key(kw) && ret@[kw] <= depth);
            } else {
                visit(new_state, d + 1, depth, get_key, allowed, ret, Ghost(solved), Ghost(max));
            }
            assert forall|kk: K| #[trigger] mid.contains_key(kk) implies ret@.contains_key(kk) && ret@[kk] == mid[kk] by {}
            proof {
                if moves_deterministic::<S>() {
                    assert forall|ts: Seq<Twist>, states: Seq<S>|
                        #![trigger is_path(state, ts, states)]
                        ts.len() == depth - d && ts[0].idx() < k + 1 && (forall|i: int|
                            0 <= i < ts.len() ==> S::can_twist(#[trigger] ts[i]) && ts[i].inv()) && is_path(state, ts, states)
                        implies exists|kk: K| #[trigger] call_ensures(*get_key, (states.last(),), kk) && ret@.contains_key(kk)
                            && ret@[kk] <= depth by {
                        if ts[0].idx() < k {
                            let kk = choose|kk: K| #[trigger] call_ensures(*get_key, (states.last(),), kk) && mid.contains_key(kk)
                                && mid[kk] <= depth;
                            assert(mid.contains_key(kk));
                        } else {
                            Twist::lemma_idx_eq(ts[0], twist);
                            assert(ts[0] == twist);
                            assert(S::moved(states[0], ts[0], states[1]));
                            assert(S::moved(state, twist, new_state));
                            assert(states[1] == new_state);
                            if d + 1 == depth {
                                assert(states.last() == states[1]);
                                assert(call_ensures(*get_key, (states.last(),), kw));
                            } else {
                                let ts2 = ts.drop_first();
                                let states2 = states.drop_first();
                                assert(is_path(new_state, ts2, states2)) by {
                                    assert forall|i: int| #![trigger ts2[i]] 0 <= i < ts2.len() implies states2.len() == ts2.len() + 1 && S::moved(
                                        states2[i],
                                        ts2[i],
                                        states2[i + 1],
                                    ) by {
                                        assert(ts2[i] == ts[i + 1]);
                                        assert(S::moved(states[i + 1], ts[i + 1], states[i + 2]));
                                    }
                                }
                                assert forall|i: int| 0 <= i < ts2.len() implies S::can_twist(#[trigger] ts2[i]) && ts2[i].inv() by {
                                    assert(ts2[i] == ts[i + 1]);
                                }
                                assert(states2.last() == states.last());
                                let kk = choose|kk: K| #[trigger] call_ensures(*get_key, (states2.last(),), kk) && ret@.contains_key(kk)
                                    && ret@[kk] <= depth;
                                assert(ret@.contains_key(kk));
                            }
                        }
                    }
                }
            }
            proof {
                if moves_deterministic::<S>() && key_deterministic(*get_key) {
                    assert forall|ts: Seq<Twist>, states: Seq<S>, kk: K|
                        #![trigger is_path(state, ts, states), call_ensures(*get_key, (states.last(),), kk)]
                        ts.len() == depth - d && ts[0].idx() < k + 1 && (forall|i: int|
                            0 <= i < ts.len() ==> S::can_twist(#[trigger] ts[i]) && ts[i].inv()) && is_path(state, ts, states)
                            && call_ensures(*get_key, (states.last(),), kk)
                        implies ret@.contains_key(kk) && ret@[kk] <= depth by {
                        if ts[0].idx() < k {
                            assert(mid.contains_key(kk) && mid[kk] <= depth);
                        } else {
                            Twist::lemma_idx_eq(ts[0], twist);
                            assert(ts[0] == twist);
                            assert(S::moved(states[0], ts[0], states[1]));
                            assert(S::moved(state, twist, new_state));
                            assert(states[1] == new_state);
                            if d + 1 == depth {
                                assert(states.last() == states[1]);
                            } else {
                                let ts2 = ts.drop_first();
                                let states2 = states.drop_first();
                                assert(is_path(new_state, ts2, states2)) by {
                                    assert forall|i: int| #![trigger ts2[i]] 0 <= i < ts2.len() implies states2.len() == ts2.len() + 1 && S::moved(
                                        states2[i],
                                        ts2[i],
                                        states2[i + 1],
                                    ) by {
                                        assert(ts2[i] == ts[i + 1]);
                                        assert(S::moved(states[i + 1], ts[i + 1], states[i + 2]));
                                    }
                                }
                                assert forall|i: int| 0 <= i < ts2.len() implies S::can_twist(#[trigger] ts2[i]) && ts2[i].inv() by {
                                    assert(ts2[i] == ts[i + 1]);
                                }
                                assert(states2.last() == states.last());
                            }
                        }
                    }
                }
            }
        } else {
            proof {
                if moves_deterministic::<S>() {
                    assert forall|ts: Seq<Twist>, states: Seq<S>|
                        #![trigger is_path(state, ts, states)]
                        ts.len() == depth - d && ts[0].idx() < k + 1 && (forall|i: int|
                            0 <= i < ts.len() ==> S::can_twist(#[trigger] ts[i]) && ts[i].inv()) && is_path(state, ts, states)
                        implies exists|kk: K| #[trigger] call_ensures(*get_key, (states.last(),), kk) && ret@.contains_key(kk)
                            && ret@[kk] <= depth by {
                        if ts[0].idx() == k {
                            assert(S::can_twist(ts[0]) && ts[0].inv());
                            ts[0].lemma_idx();
                            assert(!allowed.has(k as int));
                        }
                    }
                }
                if moves_deterministic::<S>() && key_deterministic(*get_key) {
                    assert forall|ts: Seq<Twist>, states: Seq<S>, kk: K|
                        #![trigger is_path(state, ts, states), call_ensures(*get_key, (states.last(),), kk)]
                        ts.len() == depth - d && ts[0].idx() < k + 1 && (forall|i: int|
                            0 <= i < ts.len() ==> S::can_twist(#[trigger] ts[i]) && ts[i].inv()) && is_path(state, ts, states)
                            && call_ensures(*get_key, (states.last(),), kk)
                        implies ret@.contains_key(kk) && ret@[kk] <= depth by {
                        if ts[0].idx() == k {
                            assert(S::can_twist(ts[0]) && ts[0].inv());
                            ts[0].lemma_idx();
                            assert(!allowed.has(k as int));
                        }
                    }
                }
            }
        }
        k = k + 1;
    }
    proof {
        if moves_deterministic::<S>() {
            assert forall|ts: Seq<Twist>, states: Seq<S>|
                #![trigger is_path(state, ts, states)]
                ts.len() == depth - d && (forall|i: int| 0 <= i < ts.len() ==> S::can_twist(#[trigger] ts[i]) && ts[i].inv())
                    && is_path(state, ts, states)
                implies exists|kk: K| #[trigger] call_ensures(*get_key, (states.last(),), kk) && ret@.contains_key(kk)
                    && ret@[kk] <= depth by {
                assert(ts[0].inv());
                ts[0].lemma_idx();
            }
        }
        if moves_deterministic::<S>() && key_deterministic(*get_key) {
            assert forall|ts: Seq<Twist>, states: Seq<S>, kk: K|
                #![trigger is_path(state, ts, states), call_ensures(*get_key, (states.last(),), kk)]
                ts.len() == depth - d && (forall|i: int| 0 <= i < ts.len() ==> S::can_twist(#[trigger] ts[i]) && ts[i].inv())
                    && is_path(state, ts, states) && call_ensures(*get_key, (states.last(),), kk)
                implies ret@.contains_key(kk) && ret@[kk] <= depth by {
                assert(ts[0].inv());
                ts[0].lemma_idx();
            }
        }
    }
}

/// A table complete up to `depth - 1`, kept in a larger table that has the
/// keys of every path of exactly `depth`, is complete up to `depth`.
proof fn lemma_within_extend<S: Stage, K, F: Fn(S) -> K>(
    solved: S,
    get_key: F,
    before: Map<K, u8>,
    after: Map<K, u8>,
    depth: int,
)
    requires
        reaches_within(solved, get_key, before, 0, depth - 1),
        forall|k: K| #[trigger] before.contains_key(k) ==> after.contains_key(k) && after[k] == before[k],
        forall|ts: Seq<Twist>, states: Seq<S>, k: K|
            #![trigger is_path(solved, ts, states), call_ensures(get_key, (states.last(),), k)]
            ts.len() == depth - 0 && (forall|i: int| 0 <= i < ts.len() ==> S::can_twist(#[trigger] ts[i]) && ts[i].inv())
                && is_path(solved, ts, states) && call_ensures(get_key, (states.last(),), k) ==> after.contains_key(k)
                && after[k] <= depth,
    ensures
        reaches_within(solved, get_key, after, 0, depth),
{
    assert forall|ts: Seq<Twist>, states: Seq<S>, k: K|
        #![trigger is_path(solved, ts, states), call_ensures(get_key, (states.last(),), k)]
        0 <= ts.len() <= depth && (forall|i: int| 0 <= i < ts.len() ==> S::can_twist(#[trigger] ts[i]) && ts[i].inv())
            && is_path(solved, ts, states) && call_ensures(get_key, (states.last(),), k)
        implies after.contains_key(k) && after[k] <= ts.len() by {
        if ts.len() < depth {
            assert(before.contains_key(k) && before[k] <= ts.len());
        }
    }
}

/// Table from keys to the fewest twists found to reach a state with the
/// key.
pub struct PruningTable<K>(HashMap<K, u8>);

impl<K> PruningTable<K> {
    /// The keys and their depths.
    pub closed spec fn entries(self) -> Map<K, u8> {
        self.0@
    }
}

impl<K: Copy + Eq + Hash> PruningTable<K> {
    /// Returns the depth of a key, if the table has it.
    pub fn query(&self, key: K) -> (r: Option<u8>)
        requires
            vstd::std_specs::hash::obeys_key_model::<K>(),
        ensures
            r == (if self.entries().contains_key(key) {
                Some(self.entries()[key])
            } else {
                None
            }),
    {
        match self.0.get(&key) {
            Some(d) => Some(*d),
            None => None,
        }
    }

    /// Returns the number of keys in the table.
    pub fn len(&self) -> (r: usize)
        requires
            vstd::std_specs::hash::obeys_key_model::<K>(),
        ensures
            r == self.entries().len(),
    {
        self.0.len()
    }

    /// Makes a table from `solved` by trying every sequence of twists of
    /// the stage, of each length from 1 to `max_depth` in turn: the key of
    /// `solved` gets 0, and each key not yet in the table gets the length
    /// of the sequence that first reached it.
    #[verifier::spinoff_prover]
    #[verifier::rlimit(60)]
    pub fn make_pruning_table<S: Stage>(solved: S, get_key: impl Fn(S) -> K, max_depth: u8) -> (r: Self)
        requires
            vstd::std_specs::hash::obeys_key_model::<K>(),
            forall|s: S| #[trigger] get_key.requires((s,)),
        ensures
            exists|k: K|
                call_ensures(get_key, (solved,), k) && #[trigger] r.entries().contains_key(k) && r.entries()[k]
                    == 0,
            entries_sound(solved, get_key, r.entries(), max_depth as int),
            moves_deterministic::<S>() && key_deterministic(get_key) ==> reaches_within(
                solved,
                get_key,
                r.entries(),
                0,
                max_depth as int,
            ),
            moves_deterministic::<S>() ==> reaches_found(solved, get_key, r.entries(), 0, max_depth as int),
    {
        let allowed = S::twists();
        let mut ret: HashMap<K, u8> = HashMap::new();
        let k0 = get_key(solved);
        ret.insert(k0, 0);
        proof {
            lemma_reached_start(solved);
            assert(key_found(solved, get_key, k0, 0));
            if moves_deterministic::<S>() {
                assert forall|ts: Seq<Twist>, states: Seq<S>|
                    #![trigger is_path(solved, ts, states)]
                    0 <= ts.len() <= 0 && (forall|i: int| 0 <= i < ts.len() ==> S::can_twist(#[trigger] ts[i]) && ts[i].inv())
                        && is_path(solved, ts, states)
                implies exists|k: K| #[trigger] call_ensures(get_key, (states.last(),), k) && ret@.contains_key(k) && ret@[k]
                    <= ts.len() by {
                    assert(states.last() == states[0]);
                    assert(call_ensures(get_key, (states.last(),), k0));
                }
            }
            if moves_deterministic::<S>() && key_deterministic(get_key) {
                assert forall|ts: Seq<Twist>, states: Seq<S>, k: K|
                    #![trigger is_path(solved, ts, states), call_ensures(get_key, (states.last(),), k)]
                    0 <= ts.len() <= 0 && (forall|i: int| 0 <= i < ts.len() ==> S::can_twist(#[trigger] ts[i]) && ts[i].inv())
                        && is_path(solved, ts, states) && call_ensures(get_key, (states.last(),), k)
                    implies ret@.contains_key(k) && ret@[k] <= ts.len() by {
                    assert(states.last() == states[0]);
                }
            }
        }
        let mut depth: u16 = 1;
        while depth <= max_depth as u16
            invariant
                1 <= depth <= max_depth as u16 + 1,
                vstd::std_specs::hash::obeys_key_model::<K>(),
                forall|s: S| #[trigger] get_key.requires((s,)),
                forall|i: int| 0 <= i < 184 ==> #[trigger] allowed.has(i) == S::can_twist(Twist::spec_from_index(i)),
                call_ensures(get_key, (solved,), k0),
                ret@.contains_key(k0),
                ret@[k0] == 0,
                entries_sound(solved, get_key, ret@, max_depth as int),
                forall|k: K| #[trigger] ret@.contains_key(k) ==> ret@[k] < depth,
                moves_deterministic::<S>() && key_deterministic(get_key) ==> reaches_within(
                    solved,
                    get_key,
                    ret@,
                    0,
                    depth - 1,
                ),
                moves_deterministic::<S>() ==> reaches_found(solved, get_key, ret@, 0, depth - 1),
            decreases max_depth as u16 + 1 - depth,
        {
            let ghost before = ret@;
            proof {
                lemma_reached_start(solved);
            }
            visit(solved, 0, depth as u8, &get_key, &allowed, &mut ret, Ghost(solved), Ghost(max_depth as int));
            proof {
                assert(ret@[k0] == before[k0]);
                if moves_deterministic::<S>() && key_deterministic(get_key) {
                    lemma_within_extend(solved, get_key, before, ret@, depth as int);
                }
                assert forall|k: K| #[trigger] ret@.contains_key(k) implies ret@[k] < depth + 1 by {
                    if before.contains_key(k) {
                        assert(ret@[k] == before[k]);
                    }
                }
            }
            depth = depth + 1;
        }
        let r = PruningTable(ret);
        assert(r.entries().contains_key(k0));
        r
    }
}

impl PruningTable<u32> {
    /// Makes the table of the edge bits of the stage 1 state (see
    /// [`PruningTable::make_pruning_table`]), from the solved state.
    pub fn make_s1_e_pruning_table(max_depth: u8) -> (r: Self)
        ensures
            r.entries().contains_key(Stage1::SOLVED_E),
            r.entries()[Stage1::SOLVED_E] == 0,
            forall|k: u32| #[trigger]
                r.entries().contains_key(k) ==> r.entries()[k] <= max_depth && exists|s: Stage1|
                    #[trigger] reached_by((Stage1 { e: Stage1::SOLVED_E, r: Stage1::SOLVED_R }), r.entries()[k] as int, s) && s.e == k,
            forall|ts: Seq<Twist>, states: Seq<Stage1>|
                #![trigger is_path((Stage1 { e: Stage1::SOLVED_E, r: Stage1::SOLVED_R }), ts, states)]
                ts.len() <= max_depth && (forall|i: int| 0 <= i < ts.len() ==> Stage1::can_twist(#[trigger] ts[i]) && ts[i].inv())
                    && is_path((Stage1 { e: Stage1::SOLVED_E, r: Stage1::SOLVED_R }), ts, states) ==> r.entries().contains_key(
                    states.last().e,
                ) && r.entries()[states.last().e] <= ts.len(),
    {
        let init = Stage1::default();
        let get_e = |s: Stage1| -> (k: u32)
            ensures
                k == s.e,
            { s.e };
        let r = Self::make_pruning_table(init, get_e, max_depth);
        proof {
            assert forall|k: u32| #[trigger]
                r.entries().contains_key(k) implies r.entries()[k] <= max_depth && exists|s: Stage1|
                    #[trigger] reached_by((Stage1 { e: Stage1::SOLVED_E, r: Stage1::SOLVED_R }), r.entries()[k] as int, s) && s.e == k by {
                assert(key_found(init, get_e, k, r.entries()[k] as int));
            }
            Stage1::law_moves_deterministic();
            assert forall|ts: Seq<Twist>, states: Seq<Stage1>|
                #![trigger is_path((Stage1 { e: Stage1::SOLVED_E, r: Stage1::SOLVED_R }), ts, states)]
                ts.len() <= max_depth && (forall|i: int| 0 <= i < ts.len() ==> Stage1::can_twist(#[trigger] ts[i]) && ts[i].inv())
                    && is_path((Stage1 { e: Stage1::SOLVED_E, r: Stage1::SOLVED_R }), ts, states)
            implies r.entries().contains_key(states.last().e) && r.entries()[states.last().e] <= ts.len() by {
                assert(is_path(init, ts, states));
                let k = choose|k: u32| #[trigger] call_ensures(get_e, (states.last(),), k) && r.entries().contains_key(k)
                    && r.entries()[k] <= ts.len();
                assert(k == states.last().e);
            }
        }
        r
    }
}

/// The pruning tables of the search.
pub struct PruningTables {
    /// Stage 1 trie.
    pub s1_pps: SubsetTrie,
}

impl PruningTables {
    /// Depth of the stage 1 trie.
    pub const S1_PPS_PRUNE_DEPTH: u8 = 3;
}

} // verus!
