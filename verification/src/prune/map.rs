//! Pruning map: for each key of a stage state reached from the start, the
//! number of twists that reached it.
use std::collections::HashMap;

use vstd::prelude::*;

use crate::prune::map_bytes::{
    bytes_ok, decoded, decoded_entry, entries_bytes, le_bytes, le_value, lists_entries, map_bytes, push_le, read_le,
    sort_entries,
};
use crate::prune::table::moves_deterministic;
use vstd::std_specs::iter::IteratorSpec;
use crate::puzzle::Twist;
use crate::search::is_path;
use crate::stages::{Stage, StageKeyU64};

verus! {

broadcast use vstd::std_specs::hash::group_hash_axioms;

/// Whether `s` is reached from `start` by `d` twists, each in `allowed`.
pub open spec fn reached<S: Stage>(start: S, allowed: Seq<Twist>, d: int, s: S) -> bool {
    exists|ts: Seq<Twist>, states: Seq<S>|
        #![trigger is_path(start, ts, states)]
        ts.len() == d && (forall|i: int| 0 <= i < ts.len() ==> allowed.contains(#[trigger] ts[i])) && is_path(
            start,
            ts,
            states,
        ) && states.last() == s
}

/// Whether `entries` gives depth 0 to the key of `init`, and to every key a
/// depth at which some state with that key is reached from `init` by twists
/// of `allowed`, all of which the stage can apply.
pub open spec fn searched_from<S: StageKeyU64>(entries: Map<u64, u8>, init: S, allowed: Seq<Twist>) -> bool {
    &&& forall|i: int| 0 <= i < allowed.len() ==> S::can_twist(#[trigger] allowed[i])
    &&& entries.contains_key(init.spec_key())
    &&& entries[init.spec_key()] == 0
    &&& forall|k: u64|
        #[trigger] entries.contains_key(k) ==> exists|s: S| reached(init, allowed, entries[k] as int, s) && s.spec_key() == k
}

/// Whether the key of a state tells the state.
pub open spec fn key_injective<S: StageKeyU64>() -> bool {
    forall|a: S, b: S| #[trigger] a.spec_key() == #[trigger] b.spec_key() ==> a == b
}

/// Whether the key of every state reached from `init` by at most `hi`
/// twists of `allowed` is in `entries`, with a depth no greater than the
/// number of twists.
pub open spec fn complete_within<S: StageKeyU64>(entries: Map<u64, u8>, init: S, allowed: Seq<Twist>, hi: int) -> bool {
    forall|ts: Seq<Twist>, states: Seq<S>|
        #![trigger is_path(init, ts, states)]
        ts.len() <= hi && (forall|i: int| 0 <= i < ts.len() ==> allowed.contains(#[trigger] ts[i])) && is_path(init, ts, states)
            ==> entries.contains_key(states.last().spec_key()) && entries[states.last().spec_key()] <= ts.len()
}

/// The state of the breadth-first search: the queue's depths do not go
/// down and are at most one more than `last`, the depth of the last state
/// taken; the map's depths are at most `last + 1`; each key of the map
/// below `max_depth` has its state in the queue at its depth; and each state
/// taken from the queue (before `head`) has the keys of all its moves in the
/// map, at most one deeper.
pub open spec fn bfs_invariant<S: StageKeyU64>(
    map: Map<u64, u8>,
    queue: Seq<(S, u8)>,
    head: int,
    last: int,
    allowed: Seq<Twist>,
    max_depth: int,
) -> bool {
    &&& forall|i: int, j: int| 0 <= i < j < queue.len() ==> (#[trigger] queue[i]).1 <= (#[trigger] queue[j]).1
    &&& forall|i: int| 0 <= i < queue.len() ==> (#[trigger] queue[i]).1 <= last + 1
    &&& head > 0 ==> queue[head - 1].1 == last
    &&& head == 0 ==> last == 0
    &&& forall|i: int| head <= i < queue.len() ==> (#[trigger] queue[i]).1 >= last
    &&& forall|k: u64| #[trigger] map.contains_key(k) ==> map[k] <= last + 1
    &&& forall|k: u64|
        #[trigger] map.contains_key(k) && (map[k] < max_depth || map[k] == 0) ==> exists|i: int|
            0 <= i < queue.len() && (#[trigger] queue[i]).0.spec_key() == k && queue[i].1 == map[k]
    &&& forall|i: int, jj: int, n: S|
        0 <= i < head && 0 <= jj < allowed.len() && #[trigger] S::moved((#[trigger] queue[i]).0, allowed[jj], n)
            && moves_deterministic::<S>() ==> map.contains_key(n.spec_key()) && map[n.spec_key()] <= queue[i].1 + 1
}

/// Pruning map: for each key of a state reached from the start, the
/// number of twists that first reached it in a breadth-first search.
#[derive(Debug, PartialEq, Eq)]
pub struct PruningMap {
    map: HashMap<u64, u8>,
    max_depth: u8,
}

impl PruningMap {
    /// The keys and their depths.
    pub closed spec fn entries(self) -> Map<u64, u8> {
        self.map@
    }

    /// The depth of the search that generated the map.
    pub closed spec fn spec_depth(self) -> u8 {
        self.max_depth
    }

    /// Returns the depth of the search that generated the map.
    pub fn depth(&self) -> (r: u8)
        ensures
            r == self.spec_depth(),
    {
        self.max_depth
    }

    /// Returns whether a branch with `remaining_search_depth` twists left
    /// should be pruned: the map covers that depth, and the key is missing
    /// or needs more twists than are left.
    pub fn query_should_prune(&self, key: u64, remaining_search_depth: u8) -> (r: bool)
        ensures
            r == (remaining_search_depth <= self.spec_depth() && (!self.entries().contains_key(key)
                || remaining_search_depth < self.entries()[key])),
    {
        remaining_search_depth <= self.max_depth && match self.map.get(&key) {
            None => true,
            Some(d) => remaining_search_depth < *d,
        }
    }

    /// Returns the depth of a key, if the map has it.
    pub fn query(&self, key: u64) -> (r: Option<u8>)
        ensures
            r == (if self.entries().contains_key(key) {
                Some(self.entries()[key])
            } else {
                None
            }),
    {
        match self.map.get(&key) {
            Some(d) => Some(*d),
            None => None,
        }
    }

    /// Returns the bytes of the map (see [`crate::prune::map_bytes`]): the
    /// number of entries, then each key and its depth, keys increasing.
    pub fn to_bytes(&self) -> (r: Vec<u8>)
        ensures
            exists|es: Seq<(u64, u8)>| lists_entries(es, self.entries()) && es.len() <= u64::MAX && r@ == map_bytes(es),
    {
        let v = map_entries(&self.map);
        let es = sort_entries(&v);
        proof {
            assert forall|i: int| 0 <= i < es@.len() implies self.map@.contains_key((#[trigger] es@[i]).0)
                && self.map@[es@[i].0] == es@[i].1 by {
                assert(v@.contains(es@[i]));
                let w = choose|w: int| 0 <= w < v@.len() && v@[w] == es@[i];
                assert(self.map@.contains_key(v@[w].0));
            }
            assert forall|k: u64| #[trigger] self.map@.contains_key(k) implies exists|i: int|
                0 <= i < es@.len() && es@[i].0 == k by {
                let w = choose|w: int| 0 <= w < v@.len() && v@[w].0 == k;
                assert(es@.contains(v@[w]));
            }
        }
        let mut out: Vec<u8> = Vec::new();
        push_le(&mut out, es.len() as u64);
        let mut i: usize = 0;
        while i < es.len()
            invariant
                0 <= i <= es@.len(),
                out@ == le_bytes(es@.len() as u64) + entries_bytes(es@.take(i as int)),
            decreases es@.len() - i,
        {
            let e = es[i];
            let ghost before = out@;
            push_le(&mut out, e.0);
            out.push(e.1);
            proof {
                let t = es@.take(i + 1);
                assert(t.drop_last() =~= es@.take(i as int));
                assert(t.last() == e);
                assert(out@ =~= le_bytes(es@.len() as u64) + entries_bytes(t));
            }
            i = i + 1;
        }
        proof {
            assert(es@.take(es@.len() as int) =~= es@);
            assert(lists_entries(es@, self.entries()));
            assert(es@.len() <= u64::MAX);
            assert(out@ == map_bytes(es@));
        }
        out
    }

    /// Reads a map of depth `max_depth` from bytes (see [`Self::to_bytes`]):
    /// `None` unless they hold a number of entries, then that many keys with
    /// their depths, keys increasing.
    pub fn from_bytes(max_depth: u8, b: &[u8]) -> (r: Option<PruningMap>)
        ensures
            (r is Some) == bytes_ok(b@),
            r matches Some(p) ==> p.spec_depth() == max_depth && lists_entries(
                decoded(b@, le_value(b@, 0) as int),
                p.entries(),
            ),
    {
        if b.len() < 8 {
            return None;
        }
        let n = read_le(b, 0);
        let rest = b.len() - 8;
        if rest % 9 != 0 || (rest / 9) as u64 != n {
            return None;
        }
        let count = rest / 9;
        let blen = b.len();
        let ghost bs = b@;
        proof {
            assert(bs.len() == 8 + 9 * n);
        }
        let mut map: HashMap<u64, u8> = HashMap::new();
        let mut prev: u64 = 0;
        let mut i: usize = 0;
        while i < count
            invariant
                0 <= i <= count,
                count == n,
                bs == b@,
                bs.len() == blen,
                bs.len() == 8 + 9 * count,
                lists_entries(decoded(bs, i as int), map@),
                i > 0 ==> prev == decoded_entry(bs, i - 1).0,
            decreases count - i,
        {
            proof {
                assert(8 + 9 * i + 9 <= bs.len()) by (nonlinear_arith)
                    requires
                        i < count,
                        bs.len() == 8 + 9 * count,
                ;
            }
            let off = 8 + 9 * i;
            let key = read_le(b, off);
            let d = b[off + 8];
            let ghost de = decoded(bs, i as int);
            if i > 0 && key <= prev {
                proof {
                    let all = decoded(bs, n as int);
                    assert(all[i - 1] == decoded_entry(bs, i - 1));
                    assert(all[i as int] == decoded_entry(bs, i as int));
                }
                return None;
            }
            let ghost old_map = map@;
            map.insert(key, d);
            proof {
                let de2 = decoded(bs, i + 1);
                assert(de2[i as int] == (key, d));
                assert forall|a: int| 0 <= a < i implies #[trigger] de2[a] == de[a] by {}
                assert forall|a: int, c: int| 0 <= a < c < de2.len() implies (#[trigger] de2[a]).0 < (#[trigger] de2[c]).0 by {
                    if c < i {
                        assert(de[a].0 < de[c].0);
                    } else if a < i - 1 {
                        assert(de[a].0 < de[i - 1].0);
                    }
                }
                assert forall|a: int| 0 <= a < de2.len() implies map@.contains_key((#[trigger] de2[a]).0) && map@[de2[a].0]
                    == de2[a].1 by {
                    if a < i {
                        assert(de2[a].0 < key);
                        assert(old_map.contains_key(de[a].0));
                    }
                }
                assert forall|k: u64| #[trigger] map@.contains_key(k) implies exists|a: int| 0 <= a < de2.len() && de2[a].0 == k by {
                    if k != key {
                        assert(old_map.contains_key(k));
                        let a = choose|a: int| 0 <= a < de.len() && de[a].0 == k;
                        assert(de2[a] == de[a]);
                    } else {
                        assert(de2[i as int].0 == k);
                    }
                }
            }
            prev = key;
            i = i + 1;
        }
        Some(PruningMap { map, max_depth })
    }

    /// Generates the map by a breadth-first search from the default state,
    /// with the stage's pruning map twists, down to `max_depth` twists: each
    /// key gets the depth at which it was first reached. Where the stage's
    /// moves are deterministic and a state is known by its key, every key
    /// reached by at most `max_depth` of the twists is in the map, with the
    /// least number of twists that reach it.
    pub fn new<S: StageKeyU64>(max_depth: u8) -> (r: Self)
        ensures
            r.spec_depth() == max_depth,
            searched_from(r.entries(), S::spec_map_start(), S::spec_pruning_twists()),
            moves_deterministic::<S>() && key_injective::<S>() ==> complete_within(
                r.entries(),
                S::spec_map_start(),
                S::spec_pruning_twists(),
                max_depth as int,
            ),
    {
        let init = S::pruning_map_start();
        let twists = S::pruning_map_twists();
        let mut queue: Vec<(S, u8)> = Vec::new();
        queue.push((init, 0));
        let mut map: HashMap<u64, u8> = HashMap::new();
        map.insert(init.key(), 0);
        proof {
            let states = seq![init];
            assert(is_path(init, Seq::<Twist>::empty(), states));
            assert(queue@[0] == (init, 0u8));
        }
        let mut head: usize = 0;
        let ghost mut last: int = 0;
        while head < queue.len()
            invariant
                0 <= head <= queue@.len(),
                forall|i: int| 0 <= i < twists@.len() ==> S::can_twist(#[trigger] twists@[i]),
                twists@ == S::spec_pruning_twists(),
                init == S::spec_map_start(),
                map@.contains_key(init.spec_key()),
                map@[init.spec_key()] == 0,
                forall|i: int|
                    0 <= i < queue@.len() ==> (#[trigger] queue@[i]).1 == 0 || queue@[i].1 < max_depth,
                forall|i: int|
                    0 <= i < queue@.len() ==> reached(init, twists@, (#[trigger] queue@[i]).1 as int, queue@[i].0),
                forall|k: u64|
                    #[trigger] map@.contains_key(k) ==> exists|s: S| reached(init, twists@, map@[k] as int, s) && s.spec_key() == k,
                bfs_invariant(map@, queue@, head as int, last, twists@, max_depth as int),
            decreases usize::MAX - map.len(), queue@.len() - head,
        {
            let (state, depth) = queue[head];
            let ghost len0 = map@.len();
            let ghost qlen0 = queue@.len();
            let ghost map0 = map@;
            let ghost queue0 = queue@;
            let ghost head0 = head as int;
            proof {
                assert(queue@[head0] == (state, depth));
                if head0 > 0 {
                    assert(queue@[head0 - 1].1 <= queue@[head0].1);
                }
            }
            head = head + 1;
            let new_depth = depth + 1;
            let mut j: usize = 0;
            while j < twists.len()
                invariant
                    0 <= j <= twists@.len(),
                    0 < head <= queue@.len(),
                    head == head0 + 1,
                    (state, depth) == queue@[head - 1],
                    new_depth == depth + 1,
                    reached(init, twists@, depth as int, state),
                    forall|i: int| 0 <= i < twists@.len() ==> S::can_twist(#[trigger] twists@[i]),
                    map@.contains_key(init.spec_key()),
                    map@[init.spec_key()] == 0,
                    forall|i: int|
                        0 <= i < queue@.len() ==> (#[trigger] queue@[i]).1 == 0 || queue@[i].1 < max_depth,
                    forall|i: int|
                        0 <= i < queue@.len() ==> reached(init, twists@, (#[trigger] queue@[i]).1 as int, queue@[i].0),
                    forall|k: u64|
                        #[trigger] map@.contains_key(k) ==> exists|s: S| reached(init, twists@, map@[k] as int, s) && s.spec_key() == k,
                    map@.len() >= len0,
                    map@.len() == len0 ==> queue@.len() == qlen0,
                    map.len() == map@.len(),
                    bfs_invariant(map0, queue0, head0, last, twists@, max_depth as int),
                    last <= depth,
                    forall|k: u64| #[trigger] map0.contains_key(k) ==> map@.contains_key(k) && map@[k] == map0[k],
                    forall|k: u64| #[trigger] map@.contains_key(k) ==> map@[k] <= depth + 1,
                    forall|k: u64| #[trigger] map@.contains_key(k) && !map0.contains_key(k) ==> map@[k] == depth + 1,
                    queue@.len() >= queue0.len(),
                    forall|i: int| 0 <= i < queue0.len() ==> #[trigger] queue@[i] == queue0[i],
                    forall|i: int| queue0.len() <= i < queue@.len() ==> (#[trigger] queue@[i]).1 == depth + 1,
                    forall|k: u64|
                        #[trigger] map@.contains_key(k) && !map0.contains_key(k) && map@[k] < max_depth ==> exists|i: int|
                            queue0.len() <= i < queue@.len() && (#[trigger] queue@[i]).0.spec_key() == k && queue@[i].1 == map@[k],
                    forall|jj: int, n: S|
                        0 <= jj < j && #[trigger] S::moved(state, twists@[jj], n) && moves_deterministic::<S>()
                            ==> map@.contains_key(n.spec_key()) && map@[n.spec_key()] <= depth + 1,
                decreases twists@.len() - j,
            {
                let twist = twists[j];
                let new_state = state.do_twist(twist);
                let key = new_state.key();
                proof {
                    lemma_reached_step(init, twists@, depth as int, state, twist, new_state);
                    assert(twists@.contains(twist)) by {
                        assert(twists@[j as int] == twist);
                    }
                }
                let ghost mapb = map@;
                let ghost queueb = queue@;
                if !map.contains_key(&key) {
                    map.insert(key, new_depth);
                    proof {
                        assert(map@.len() == mapb.len() + 1);
                        assert forall|k: u64| #[trigger] map@.contains_key(k) implies exists|s: S|
                            reached(init, twists@, map@[k] as int, s) && s.spec_key() == k by {
                            if k == key {
                                assert(reached(init, twists@, map@[k] as int, new_state));
                            } else {
                                assert(mapb.contains_key(k));
                            }
                        }
                    }
                    if new_depth < max_depth {
                        queue.push((new_state, new_depth));
                        proof {
                            assert(queue@[queueb.len() as int] == (new_state, new_depth));
                        }
                    }
                }
                proof {
                    assert forall|k: u64|
                        #[trigger] map@.contains_key(k) && !map0.contains_key(k) && map@[k] < max_depth implies exists|i: int|
                            queue0.len() <= i < queue@.len() && (#[trigger] queue@[i]).0.spec_key() == k && queue@[i].1 == map@[k] by {
                        if k != key || mapb.contains_key(k) {
                            assert(mapb.contains_key(k));
                            let i = choose|i: int|
                                queue0.len() <= i < queueb.len() && (#[trigger] queueb[i]).0.spec_key() == k && queueb[i].1 == mapb[k];
                            assert(queue@[i] == queueb[i]);
                        } else {
                            assert(queue@[queueb.len() as int] == (new_state, new_depth));
                        }
                    }
                    assert forall|jj: int, n: S|
                        0 <= jj < j + 1 && #[trigger] S::moved(state, twists@[jj], n) && moves_deterministic::<S>()
                        implies map@.contains_key(n.spec_key()) && map@[n.spec_key()] <= depth + 1 by {
                        if jj < j {
                            assert(mapb.contains_key(n.spec_key()));
                        } else {
                            assert(S::moved(state, twist, new_state));
                            assert(n == new_state);
                        }
                    }
                }
                j = j + 1;
            }
            proof {
                lemma_bfs_step(map0, queue0, map@, queue@, head0, last, twists@, max_depth as int, state, depth);
                last = depth as int;
            }
        }
        let r = PruningMap { map, max_depth };
        assert(searched_from(r.entries(), init, twists@));
        proof {
            if moves_deterministic::<S>() && key_injective::<S>() {
                assert forall|ts: Seq<Twist>, states: Seq<S>|
                    #![trigger is_path(init, ts, states)]
                    ts.len() <= max_depth && (forall|i: int| 0 <= i < ts.len() ==> twists@.contains(#[trigger] ts[i]))
                        && is_path(init, ts, states)
                    implies map@.contains_key(states.last().spec_key()) && map@[states.last().spec_key()] <= ts.len() by {
                    lemma_bfs_path(map@, queue@, last, init, twists@, max_depth as int, ts, states);
                }
            }
        }
        r
    }
}

/// One step of the breadth-first search: taking the state at `head` at
/// depth `depth`, and adding the keys of its moves at `depth + 1`, keeps
/// the invariant, with `depth` as the depth of the last state taken.
proof fn lemma_bfs_step<S: StageKeyU64>(
    map0: Map<u64, u8>,
    queue0: Seq<(S, u8)>,
    map1: Map<u64, u8>,
    queue1: Seq<(S, u8)>,
    head: int,
    last: int,
    allowed: Seq<Twist>,
    max_depth: int,
    state: S,
    depth: u8,
)
    requires
        bfs_invariant(map0, queue0, head, last, allowed, max_depth),
        0 <= head < queue0.len(),
        queue0[head] == (state, depth),
        forall|k: u64| #[trigger] map0.contains_key(k) ==> map1.contains_key(k) && map1[k] == map0[k],
        forall|k: u64| #[trigger] map1.contains_key(k) && !map0.contains_key(k) ==> map1[k] == depth + 1,
        queue1.len() >= queue0.len(),
        forall|i: int| 0 <= i < queue0.len() ==> #[trigger] queue1[i] == queue0[i],
        forall|i: int| queue0.len() <= i < queue1.len() ==> (#[trigger] queue1[i]).1 == depth + 1,
        forall|k: u64|
            #[trigger] map1.contains_key(k) && !map0.contains_key(k) && map1[k] < max_depth ==> exists|i: int|
                queue0.len() <= i < queue1.len() && (#[trigger] queue1[i]).0.spec_key() == k && queue1[i].1 == map1[k],
        forall|jj: int, n: S|
            0 <= jj < allowed.len() && #[trigger] S::moved(state, allowed[jj], n) && moves_deterministic::<S>()
                ==> map1.contains_key(n.spec_key()) && map1[n.spec_key()] <= depth + 1,
    ensures
        bfs_invariant(map1, queue1, head + 1, depth as int, allowed, max_depth),
{
    assert(queue0[head].1 >= last);
    assert forall|i: int, j: int| 0 <= i < j < queue1.len() implies (#[trigger] queue1[i]).1 <= (#[trigger] queue1[j]).1 by {
        if j < queue0.len() {
            assert(queue1[i] == queue0[i] && queue1[j] == queue0[j]);
        } else if i < queue0.len() {
            assert(queue1[i] == queue0[i]);
        }
    }
    assert forall|i: int| 0 <= i < queue1.len() implies (#[trigger] queue1[i]).1 <= depth + 1 by {
        if i < queue0.len() {
            assert(queue1[i] == queue0[i]);
        }
    }
    assert forall|i: int| head + 1 <= i < queue1.len() implies (#[trigger] queue1[i]).1 >= depth by {
        if i < queue0.len() {
            assert(queue1[i] == queue0[i]);
            assert(queue0[head].1 <= queue0[i].1);
        }
    }
    assert forall|k: u64| #[trigger] map1.contains_key(k) implies map1[k] <= depth + 1 by {
        if map0.contains_key(k) {
            assert(map0[k] <= last + 1);
        }
    }
    assert forall|k: u64|
        #[trigger] map1.contains_key(k) && (map1[k] < max_depth || map1[k] == 0) implies exists|i: int|
            0 <= i < queue1.len() && (#[trigger] queue1[i]).0.spec_key() == k && queue1[i].1 == map1[k] by {
        if map0.contains_key(k) {
            let i = choose|i: int| 0 <= i < queue0.len() && (#[trigger] queue0[i]).0.spec_key() == k && queue0[i].1 == map0[k];
            assert(queue1[i] == queue0[i]);
        } else {
            let i = choose|i: int|
                queue0.len() <= i < queue1.len() && (#[trigger] queue1[i]).0.spec_key() == k && queue1[i].1 == map1[k];
        }
    }
    assert forall|i: int, jj: int, n: S|
        0 <= i < head + 1 && 0 <= jj < allowed.len() && #[trigger] S::moved((#[trigger] queue1[i]).0, allowed[jj], n)
            && moves_deterministic::<S>() implies map1.contains_key(n.spec_key()) && map1[n.spec_key()] <= queue1[i].1 + 1 by {
        assert(queue1[i] == queue0[i]);
        if i < head {
            assert(S::moved(queue0[i].0, allowed[jj], n));
        }
    }
}

/// When the search is over (every state of the queue taken), the key of the
/// end of every path of at most `max_depth` twists of `allowed` is in the
/// map, no deeper than the path's length.
proof fn lemma_bfs_path<S: StageKeyU64>(
    map: Map<u64, u8>,
    queue: Seq<(S, u8)>,
    last: int,
    init: S,
    allowed: Seq<Twist>,
    max_depth: int,
    ts: Seq<Twist>,
    states: Seq<S>,
)
    requires
        bfs_invariant(map, queue, queue.len() as int, last, allowed, max_depth),
        map.contains_key(init.spec_key()),
        map[init.spec_key()] == 0,
        moves_deterministic::<S>(),
        key_injective::<S>(),
        ts.len() <= max_depth,
        forall|i: int| 0 <= i < ts.len() ==> allowed.contains(#[trigger] ts[i]),
        is_path(init, ts, states),
    ensures
        map.contains_key(states.last().spec_key()),
        map[states.last().spec_key()] <= ts.len(),
    decreases ts.len(),
{
    if ts.len() > 0 {
        let n = ts.len() - 1;
        let ts2 = ts.drop_last();
        let states2 = states.drop_last();
        assert forall|i: int| #![trigger ts2[i]] 0 <= i < ts2.len() implies S::moved(states2[i], ts2[i], states2[i + 1]) by {
            assert(ts2[i] == ts[i]);
            assert(S::moved(states[i], ts[i], states[i + 1]));
        }
        assert(is_path(init, ts2, states2));
        assert forall|i: int| 0 <= i < ts2.len() implies allowed.contains(#[trigger] ts2[i]) by {
            assert(ts2[i] == ts[i]);
        }
        lemma_bfs_path(map, queue, last, init, allowed, max_depth, ts2, states2);
        let p = states[n];
        assert(states2.last() == p);
        let k = p.spec_key();
        assert(map[k] < max_depth || map[k] == 0);
        let i = choose|i: int| 0 <= i < queue.len() && (#[trigger] queue[i]).0.spec_key() == k && queue[i].1 == map[k];
        assert(queue[i].0 == p);
        assert(allowed.contains(ts[n]));
        let jj = choose|jj: int| 0 <= jj < allowed.len() && allowed[jj] == ts[n];
        assert(S::moved(states[n], ts[n], states[n + 1]));
        assert(S::moved(queue[i].0, allowed[jj], states[n + 1]));
        assert(states.last() == states[n + 1]);
    } else {
        assert(states.last() == states[0]);
    }
}

/// Returns the entries of the map, in the order in which the map yields
/// them.
fn map_entries(m: &HashMap<u64, u8>) -> (r: Vec<(u64, u8)>)
    ensures
        forall|i: int| 0 <= i < r@.len() ==> m@.contains_key((#[trigger] r@[i]).0) && m@[r@[i].0] == r@[i].1,
        forall|k: u64| #[trigger] m@.contains_key(k) ==> exists|i: int| 0 <= i < r@.len() && r@[i].0 == k,
        forall|i: int, j: int| 0 <= i < j < r@.len() ==> (#[trigger] r@[i]).0 != (#[trigger] r@[j]).0,
{
    let mut r: Vec<(u64, u8)> = Vec::new();
    let ghost v = vstd::std_specs::hash::spec_hash_map_iter(m).remaining();
    let iter0 = m.iter();
    proof {
        assert(v.no_duplicates());
    }
    for x in it: iter0
        invariant
            r@.len() == it.index(),
            it.seq() == v,
            v.len() == m@.dom().len(),
            forall|i: int| 0 <= i < r@.len() ==> (#[trigger] r@[i]).0 == *v[i].0 && r@[i].1 == *v[i].1,
    {
        r.push((*x.0, *x.1));
    }
    proof {
        assert(r@.len() == v.len());
        assert forall|k: u64| #[trigger] m@.contains_key(k) implies exists|i: int| 0 <= i < r@.len() && r@[i].0 == k by {
            assert(v.contains((&k, &m@[k])));
            let i = choose|i: int| 0 <= i < v.len() && v[i] == (&k, &m@[k]);
            assert(r@[i].0 == k);
        }
        assert forall|i: int, j: int| 0 <= i < j < r@.len() implies (#[trigger] r@[i]).0 != (#[trigger] r@[j]).0 by {
            if r@[i].0 == r@[j].0 {
                assert(m@.contains_key(*v[i].0) && m@[*v[i].0] == *v[i].1);
                assert(m@.contains_key(*v[j].0) && m@[*v[j].0] == *v[j].1);
                assert(v[i] == v[j]);
            }
        }
    }
    r
}

/// A state reached by `d` twists, followed by one more allowed twist, gives
/// a state reached by `d + 1` twists.
proof fn lemma_reached_step<S: Stage>(start: S, allowed: Seq<Twist>, d: int, s: S, t: Twist, next: S)
    requires
        reached(start, allowed, d, s),
        S::moved(s, t, next),
        allowed.contains(t),
    ensures
        reached(start, allowed, d + 1, next),
{
    let (ts, states) = choose|ts: Seq<Twist>, states: Seq<S>|
        #![trigger is_path(start, ts, states)]
        ts.len() == d && (forall|i: int| 0 <= i < ts.len() ==> allowed.contains(#[trigger] ts[i])) && is_path(
            start,
            ts,
            states,
        ) && states.last() == s;
    let ts2 = ts.push(t);
    let states2 = states.push(next);
    assert forall|i: int| #![trigger ts2[i]] 0 <= i < ts2.len() implies S::moved(states2[i], ts2[i], states2[i + 1]) by {
        if i < ts.len() {
            assert(ts2[i] == ts[i]);
            assert(S::moved(states[i], ts[i], states[i + 1]));
        } else {
            assert(states2[i] == states.last());
        }
    }
    assert(is_path(start, ts2, states2));
    assert forall|i: int| 0 <= i < ts2.len() implies allowed.contains(#[trigger] ts2[i]) by {
        if i < ts.len() {
            assert(ts2[i] == ts[i]);
        }
    }
}

} // verus!
