//! Subset trie: a pruning table whose entries match every lookup key whose
//! bits are a subset of the entry key's bits; a lookup returns the lowest
//! value among the matching entries.
use std::collections::HashMap;

use vstd::arithmetic::power::pow;
use vstd::prelude::*;

use crate::canonical::PrevTwists;
use crate::puzzle::{Twist, TwistSet};
use crate::search::{canonical_after, is_path, twist_facet};
use crate::stages::{Stage, SubsetMaskStage};

verus! {

/// Number of key bits that each level of the trie consumes.
pub const BRANCHING_BITS: u32 = 4;

/// Number of children of a branch.
pub const BRANCHING_FACTOR: usize = 16;

/// Trie of entries keyed by bit strings, consumed four bits per level from
/// the least significant end.
#[derive(Debug, Default, PartialEq, Eq)]
pub enum SubsetTrie {
    /// No entry.
    #[default]
    Empty,
    /// An entry with its value (a move count).
    Terminal(u8),
    /// One child for each value of the next four key bits.
    Branch(Vec<SubsetTrie>),
}

/// The smaller of two optional values, `None` standing for no value.
pub open spec fn better(a: Option<u8>, b: Option<u8>) -> Option<u8> {
    match (a, b) {
        (Some(x), Some(y)) => Some(if x <= y { x } else { y }),
        (Some(x), None) => Some(x),
        (None, y) => y,
    }
}

/// Whether an entry with key `key`, at `n` remaining key bits, matches the
/// lookup key `bits`: at every level, the four lookup bits are a subset of
/// the four key bits.
pub open spec fn matches_key(key: u128, bits: u128, n: int) -> bool
    decreases n,
{
    if n <= 0 {
        true
    } else {
        (bits & !key) & 15 == 0 && matches_key(key >> 4u128, bits >> 4u128, if n > 4 { n - 4 } else { 0 })
    }
}

/// The best value among the first `k` children whose index has every bit of
/// the low four bits of `bits`, each looked up with the remaining bits.
pub open spec fn lookup_children(children: Seq<SubsetTrie>, bits: u128, k: int) -> Option<u8>
    decreases children, k,
{
    if k <= 0 || k > children.len() {
        None
    } else {
        let prev = lookup_children(children, bits, k - 1);
        if (bits & !((k - 1) as u128)) & 15 == 0 {
            better(prev, children[k - 1].spec_lookup(bits >> 4u128))
        } else {
            prev
        }
    }
}

impl SubsetTrie {
    /// The best value of the entries that match `bits`.
    pub open spec fn spec_lookup(self, bits: u128) -> Option<u8>
        decreases self, 0int,
    {
        match self {
            SubsetTrie::Empty => None,
            SubsetTrie::Terminal(m) => Some(m),
            SubsetTrie::Branch(b) => lookup_children(b@, bits, b@.len() as int),
        }
    }

    /// Whether every entry lies `n` key bits down (rounded up to whole
    /// levels): branches, with 16 children, above that depth and terminals
    /// only there.
    pub open spec fn wf_depth(self, n: int) -> bool
        decreases self,
    {
        match self {
            SubsetTrie::Empty => true,
            SubsetTrie::Terminal(_) => n <= 0,
            SubsetTrie::Branch(b) => n > 0 && b@.len() == BRANCHING_FACTOR && forall|i: int|
                0 <= i < b@.len() ==> (#[trigger] b@[i]).wf_depth(if n > 4 { n - 4 } else { 0 }),
        }
    }

    /// Returns a lower bound on the twists still needed from a state whose
    /// key has the bits `bits`: the lowest value among the entries that it
    /// matches, or one more than `max_depth` (the depth of the search that
    /// made the trie) if it matches none.
    pub fn distance_lower_bound(&self, bits: u128, max_depth: u8) -> (r: u8)
        requires
            max_depth < 255,
        ensures
            r == match self.spec_lookup(bits) {
                Some(v) => v,
                None => (max_depth + 1) as u8,
            },
    {
        match self.lookup(bits) {
            Some(v) => v,
            None => max_depth + 1,
        }
    }

    /// Returns the lowest value among the entries whose key has every bit of
    /// `bits` (within the key's bits).
    pub fn lookup(&self, bits: u128) -> (r: Option<u8>)
        ensures
            r == self.spec_lookup(bits),
        decreases self,
    {
        match self {
            SubsetTrie::Empty => None,
            SubsetTrie::Terminal(move_count) => Some(*move_count),
            SubsetTrie::Branch(b) => {
                let next_bits = bits >> 4;
                let mut best: Option<u8> = None;
                let mut i: usize = 0;
                while i < b.len()
                    invariant
                        0 <= i <= b@.len(),
                        next_bits == bits >> 4u128,
                        *self == SubsetTrie::Branch(*b),
                        best == lookup_children(b@, bits, i as int),
                    decreases b@.len() - i,
                {
                    if (bits & !(i as u128)) & 15 == 0 {
                        proof {
                            assert(decreases_to!(b@ => b@[i as int]));
                            assert(decreases_to!(*b => b@));
                            assert(decreases_to!(*self => self->Branch_0));
                        }
                        let v = b[i].lookup(next_bits);
                        best = match (best, v) {
                            (Some(x), Some(y)) => Some(if x <= y { x } else { y }),
                            (Some(x), None) => Some(x),
                            (None, y) => y,
                        };
                    }
                    i = i + 1;
                }
                best
            },
        }
    }
}

impl SubsetTrie {
    /// Inserts an entry with key `key` (with `bits_remaining` key bits left)
    /// and value `value`, keeping the lower value where an entry with the
    /// same key is already there.
    pub fn insert_if_better(&mut self, key: u128, bits_remaining: u32, value: u8)
        requires
            old(self).wf_depth(bits_remaining as int),
        ensures
            final(self).wf_depth(bits_remaining as int),
            forall|bits: u128|
                #[trigger] final(self).spec_lookup(bits) == better(
                    old(self).spec_lookup(bits),
                    if matches_key(key, bits, bits_remaining as int) {
                        Some(value)
                    } else {
                        None
                    },
                ),
        decreases bits_remaining,
    {
        if bits_remaining == 0 {
            let old_value = match self {
                SubsetTrie::Terminal(v) => Some(*v),
                _ => None,
            };
            *self = match old_value {
                Some(v) => SubsetTrie::Terminal(if v <= value { v } else { value }),
                None => SubsetTrie::Terminal(value),
            };
            return;
        }
        let mut old = SubsetTrie::Empty;
        std::mem::swap(&mut old, self);
        let ghost old_self = old;
        let mut b = match old {
            SubsetTrie::Empty => {
                let e = empty_children();
                proof {
                    lemma_empty_children(e@, 16);
                }
                e
            },
            SubsetTrie::Terminal(v) => {
                *self = SubsetTrie::Terminal(v);
                return;
            },
            SubsetTrie::Branch(b) => b,
        };
        let ghost old_children = b@;
        let chunk = key & 15;
        proof {
            lemma_chunk_small(key);
        }
        let idx = chunk as usize;
        let rest = if bits_remaining > BRANCHING_BITS {
            bits_remaining - BRANCHING_BITS
        } else {
            0
        };
        let mut child = b.remove(idx);
        let ghost old_child = child;
        child.insert_if_better(key >> 4, rest, value);
        b.insert(idx, child);
        proof {
            assert(b@ =~= old_children.update(idx as int, child));
            assert forall|bits: u128| #[trigger] SubsetTrie::Branch(b).spec_lookup(bits) == better(
                old_self.spec_lookup(bits),
                if matches_key(key, bits, bits_remaining as int) {
                    Some(value)
                } else {
                    None
                },
            ) by {
                let x = if matches_key(key >> 4u128, bits >> 4u128, rest as int) {
                    Some(value)
                } else {
                    None
                };
                lemma_update_children(old_children, bits, 16, idx as int, child, x);
                lemma_key_chunk(key, bits, idx);
            }
            assert forall|i: int| 0 <= i < b@.len() implies (#[trigger] b@[i]).wf_depth(
                if bits_remaining > 4 {
                    bits_remaining - 4
                } else {
                    0
                },
            ) by {
                if i != idx {
                    assert(b@[i] == old_children[i]);
                }
            }
        }
        *self = SubsetTrie::Branch(b);
    }
}

/// Whether `s` is reached from `start` by `d` twists (values of the type,
/// whose invariant holds) that the stage can apply.
pub open spec fn reached_by<S: Stage>(start: S, d: int, s: S) -> bool {
    exists|ts: Seq<Twist>, states: Seq<S>|
        #![trigger is_path(start, ts, states)]
        ts.len() == d && (forall|i: int| 0 <= i < ts.len() ==> S::can_twist(#[trigger] ts[i]) && ts[i].inv()) && is_path(
            start,
            ts,
            states,
        ) && states.last() == s
}

/// Whether some state reached from `start` by `d` twists has the key `k`.
pub open spec fn witnessed<S: SubsetMaskStage>(start: S, k: u128, d: int) -> bool {
    exists|s: S| #[trigger] reached_by(start, d, s) && s.spec_subset_trie_key() == k
}

/// Whether every key of the map is witnessed at its depth, and the list
/// holds exactly the keys of the map.
pub open spec fn entries_ok<S: SubsetMaskStage>(start: S, m: Map<u128, u8>, keys: Seq<u128>) -> bool {
    &&& forall|k: u128| #[trigger] m.contains_key(k) ==> witnessed(start, k, m[k] as int)
    &&& forall|k: u128| #[trigger] m.contains_key(k) <==> keys.contains(k)
}

/// Weight of a stack of states to explore down to `depth`: 185 to the
/// power of the depth still to go, summed over the stack.
pub open spec fn stack_weight<S>(stack: Seq<(S, u8, PrevTwists)>, depth: int) -> int
    decreases stack.len(),
{
    if stack.len() == 0 {
        0
    } else {
        stack_weight(stack.drop_last(), depth) + pow(185, (depth - stack.last().1) as nat)
    }
}

/// The weight of a stack is never negative.
proof fn lemma_stack_weight_nonneg<S>(stack: Seq<(S, u8, PrevTwists)>, depth: int)
    ensures
        stack_weight(stack, depth) >= 0,
    decreases stack.len(),
{
    if stack.len() > 0 {
        lemma_stack_weight_nonneg(stack.drop_last(), depth);
        vstd::arithmetic::power::lemma_pow_positive(185, (depth - stack.last().1) as nat);
    }
}

/// A state reached by `d` twists, followed by a twist that the stage can
/// apply, gives a state reached by `d + 1` twists.
pub(crate) proof fn lemma_reached_by_step<S: Stage>(start: S, d: int, s: S, t: Twist, next: S)
    requires
        reached_by(start, d, s),
        S::moved(s, t, next),
        S::can_twist(t),
        t.inv(),
    ensures
        reached_by(start, d + 1, next),
{
    let (ts, states) = choose|ts: Seq<Twist>, states: Seq<S>|
        #![trigger is_path(start, ts, states)]
        ts.len() == d && (forall|i: int| 0 <= i < ts.len() ==> S::can_twist(#[trigger] ts[i]) && ts[i].inv()) && is_path(
            start,
            ts,
            states,
        ) && states.last() == s;
    let ts2 = ts.push(t);
    let states2 = states.push(next);
    assert forall|i: int| #![trigger ts2[i]] 0 <= i < ts2.len() implies S::moved(states2[i], ts2[i], states2[i + 1]) by {
        if i < ts.len() {
            assert(ts2[i] == ts[i]);
            assert(S::moved(states[i], ts[i], states[i + 1]));
        } else {
            assert(states2[i] == states.last());
        }
    }
    assert(is_path(start, ts2, states2));
    assert forall|i: int| 0 <= i < ts2.len() implies S::can_twist(#[trigger] ts2[i]) && ts2[i].inv() by {
        if i < ts.len() {
            assert(ts2[i] == ts[i]);
        }
    }
}

/// Inserting a key into the map, and into the list unless the map had it,
/// keeps the list holding exactly the keys of the map.
proof fn lemma_keys_insert(
    m: Map<u128, u8>,
    keys: Seq<u128>,
    k: u128,
    v: u8,
    pushed: bool,
    m2: Map<u128, u8>,
    keys2: Seq<u128>,
)
    requires
        forall|j: u128| #[trigger] m.contains_key(j) <==> keys.contains(j),
        pushed == !m.contains_key(k),
        keys2 == if pushed { keys.push(k) } else { keys },
        m2 == m.insert(k, v),
    ensures
        forall|j: u128| #[trigger] m2.contains_key(j) <==> keys2.contains(j),
{
    assert forall|j: u128| #[trigger] m2.contains_key(j) <==> keys2.contains(j) by {
        if pushed {
            assert(keys2[keys2.len() - 1] == k);
            if keys2.contains(j) && j != k {
                let i = choose|i: int| 0 <= i < keys2.len() && keys2[i] == j;
                assert(keys[i] == j);
            }
            if keys.contains(j) {
                let i = choose|i: int| 0 <= i < keys.len() && keys[i] == j;
                assert(keys2[i] == j);
            }
        }
    }
}

/// The start is reached by no twist.
pub(crate) proof fn lemma_reached_start<S: Stage>(start: S)
    ensures
        reached_by(start, 0, start),
{
    let ts = Seq::<Twist>::empty();
    let states = seq![start];
    assert(is_path(start, ts, states));
}

/// Whether some state that `t` takes `s1` to has its key in the map, with
/// a depth of at most 2.
pub open spec fn second_found<S: SubsetMaskStage>(m: Map<u128, u8>, s1: S, t: Twist) -> bool {
    exists|n: S|
        #[trigger] S::moved(s1, t, n) && m.contains_key(n.spec_subset_trie_key()) && m[n.spec_subset_trie_key()] <= 2
}

/// Whether every twist of index below `k` that the stage can apply and that
/// the generator in state `p1` accepts is one of [`second_found`].
pub open spec fn covered_upto<S: SubsetMaskStage>(m: Map<u128, u8>, s1: S, p1: PrevTwists, k: int) -> bool {
    forall|i: int|
        0 <= i < k && S::can_twist(Twist::spec_from_index(i)) && p1.spec_do_twist_on_facet(
            twist_facet(Twist::spec_from_index(i)),
        ) is Some ==> #[trigger] second_found(m, s1, Twist::spec_from_index(i))
}

/// Whether the canonical sequence generator accepts `t1` and then `t2`.
pub open spec fn canonical_pair(t1: Twist, t2: Twist) -> bool {
    canonical_after(PrevTwists(None), seq![t1, t2])
}

/// The generator state after the first twist, as the search starts it.
pub open spec fn first_prev(first: Twist) -> PrevTwists {
    match PrevTwists(None).spec_do_twist_on_facet(twist_facet(first)) {
        Some(p) => p,
        None => PrevTwists(None),
    }
}

/// Giving a key a depth no greater than it had keeps what
/// [`covered_upto`] says.
proof fn lemma_covered_insert<S: SubsetMaskStage>(m: Map<u128, u8>, s1: S, p1: PrevTwists, k: int, key: u128, v: u8)
    requires
        covered_upto(m, s1, p1, k),
        v <= 2 || (m.contains_key(key) ==> v <= m[key]),
    ensures
        covered_upto(m.insert(key, v), s1, p1, k),
{
    let m2 = m.insert(key, v);
    assert forall|i: int|
        0 <= i < k && S::can_twist(Twist::spec_from_index(i)) && p1.spec_do_twist_on_facet(
            twist_facet(Twist::spec_from_index(i)),
        ) is Some implies #[trigger] second_found(m2, s1, Twist::spec_from_index(i)) by {
        let t = Twist::spec_from_index(i);
        assert(second_found(m, s1, t));
        let n = choose|n: S|
            #[trigger] S::moved(s1, t, n) && m.contains_key(n.spec_subset_trie_key()) && m[n.spec_subset_trie_key()] <= 2;
        assert(m2.contains_key(n.spec_subset_trie_key()));
    }
}

/// A map that keeps every key of another, at no greater depth, keeps what
/// [`covered_upto`] says of it.
proof fn lemma_covered_kept<S: SubsetMaskStage>(m1: Map<u128, u8>, m2: Map<u128, u8>, s1: S, p1: PrevTwists)
    requires
        covered_upto(m1, s1, p1, 184),
        forall|k: u128| #[trigger] m1.contains_key(k) ==> m2.contains_key(k) && m2[k] <= m1[k],
    ensures
        covered_upto(m2, s1, p1, 184),
{
    assert forall|i: int|
        0 <= i < 184 && S::can_twist(Twist::spec_from_index(i)) && p1.spec_do_twist_on_facet(
            twist_facet(Twist::spec_from_index(i)),
        ) is Some implies #[trigger] second_found(m2, s1, Twist::spec_from_index(i)) by {
        let t = Twist::spec_from_index(i);
        assert(second_found(m1, s1, t));
        let n = choose|n: S|
            #[trigger] S::moved(s1, t, n) && m1.contains_key(n.spec_subset_trie_key()) && m1[n.spec_subset_trie_key()] <= 2;
        assert(m2.contains_key(n.spec_subset_trie_key()));
    }
}

/// Explores the states reached from `init` by `first` and then by
/// canonical sequences of the stage's twists, down to each depth up to
/// `max_depth` in turn, recording for each key the lowest depth seen (not
/// looking past a state whose key was seen at a lower depth).
#[verifier::spinoff_prover]
#[verifier::rlimit(60)]
fn explore_from<S: SubsetMaskStage>(init: S, first: Twist, max_depth: u8, allowed: &TwistSet) -> (r: (
    HashMap<u128, u8>,
    Vec<u128>,
))
    requires
        S::can_twist(first),
        forall|i: int| 0 <= i < 184 ==> #[trigger] allowed.has(i) == S::can_twist(Twist::spec_from_index(i)),
    ensures
        entries_ok(init, r.0@, r.1@),
        max_depth >= 1 ==> exists|s1: S|
            S::moved(init, first, s1) && #[trigger] r.0@.contains_key(s1.spec_subset_trie_key()) && r.0@[s1.spec_subset_trie_key()]
                <= 1 && (max_depth >= 2 ==> covered_upto(r.0@, s1, first_prev(first), 184)),
{
    let mut entries: HashMap<u128, u8> = HashMap::new();
    let mut keys: Vec<u128> = Vec::new();
    let s1 = init.do_twist(first);
    let p1 = match PrevTwists::new().do_twist(first) {
        Some(p) => p,
        None => PrevTwists::new(),
    };
    let k1 = s1.subset_trie_key();
    proof {
        lemma_reached_start(init);
        use_type_invariant(&first);
        lemma_reached_by_step(init, 0, init, first, s1);
    }
    let mut depth: u16 = 1;
    while depth <= max_depth as u16
        invariant
            1 <= depth,
            forall|i: int| 0 <= i < 184 ==> #[trigger] allowed.has(i) == S::can_twist(Twist::spec_from_index(i)),
            reached_by(init, 1, s1),
            k1 == s1.spec_subset_trie_key(),
            entries_ok(init, entries@, keys@),
            S::moved(init, first, s1),
            depth > 1 ==> entries@.contains_key(k1) && entries@[k1] <= 1,
            p1 == first_prev(first),
            depth > 2 ==> covered_upto(entries@, s1, p1, 184),
        decreases max_depth as u16 + 1 - depth,
    {
        let mut queue: Vec<(S, u8, PrevTwists)> = Vec::new();
        queue.push((s1, 1, p1));
        let ghost old_m = entries@;
        let ghost old_keys = keys@;
        let pushed = !entries.contains_key(&k1);
        if pushed {
            keys.push(k1);
        }
        entries.insert(k1, 1);
        proof {
            assert(witnessed(init, k1, 1));
            lemma_keys_insert(old_m, old_keys, k1, 1, pushed, entries@, keys@);
            if depth > 2 {
                lemma_covered_insert(old_m, s1, p1, 184, k1, 1);
            }
        }
        while queue.len() > 0
            invariant
                1 <= depth <= 255,
                forall|i: int| 0 <= i < 184 ==> #[trigger] allowed.has(i) == S::can_twist(Twist::spec_from_index(i)),
                reached_by(init, 1, s1),
                k1 == s1.spec_subset_trie_key(),
                entries_ok(init, entries@, keys@),
                entries@.contains_key(k1) && entries@[k1] <= 1,
                forall|i: int|
                    0 <= i < queue@.len() ==> 1 <= (#[trigger] queue@[i]).1 <= depth && (queue@[i].1 == 1
                        || queue@[i].1 < depth) && reached_by(init, queue@[i].1 as int, queue@[i].0),
                p1 == first_prev(first),
                S::moved(init, first, s1),
                depth > 2 ==> covered_upto(entries@, s1, p1, 184),
                depth == 2 ==> (queue@ == seq![(s1, 1u8, p1)]) || (queue@.len() == 0 && covered_upto(entries@, s1, p1, 184)),
            decreases stack_weight(queue@, depth as int),
        {
            let ghost w0 = stack_weight(queue@, depth as int);
            let ghost q0 = queue@;
            let (state, d0, prev) = match queue.pop() {
                Some(x) => x,
                None => (s1, 1, p1),
            };
            proof {
                assert(q0 =~= queue@.push((state, d0, prev)));
                assert(q0[q0.len() - 1] == (state, d0, prev));
                if depth == 2 {
                    assert(q0 == seq![(s1, 1u8, p1)]);
                    assert(queue@.len() == 0);
                }
                vstd::arithmetic::power::lemma_pow_positive(185, (depth - d0) as nat);
            }
            let ghost w1 = stack_weight(queue@, depth as int);
            let d = d0 + 1;
            let ghost p = if d < depth {
                pow(185, (depth - d) as nat)
            } else {
                0
            };
            proof {
                if d < depth {
                    vstd::arithmetic::power::lemma_pow_positive(185, (depth - d) as nat);
                }
            }
            let mut k: u8 = 0;
            while k < 184
                invariant
                    0 <= k <= 184,
                    1 <= depth <= 255,
                    1 <= d0 <= depth,
                    d0 == 1 || d0 < depth,
                    d == d0 + 1,
                    reached_by(init, d0 as int, state),
                    forall|i: int| 0 <= i < 184 ==> #[trigger] allowed.has(i) == S::can_twist(Twist::spec_from_index(i)),
                    reached_by(init, 1, s1),
                    k1 == s1.spec_subset_trie_key(),
                    entries_ok(init, entries@, keys@),
                    entries@.contains_key(k1) && entries@[k1] <= 1,
                    forall|i: int|
                        0 <= i < queue@.len() ==> 1 <= (#[trigger] queue@[i]).1 <= depth && (queue@[i].1 == 1
                            || queue@[i].1 < depth) && reached_by(init, queue@[i].1 as int, queue@[i].0),
                    p >= 0,
                    p == (if d < depth {
                        pow(185, (depth - d) as nat)
                    } else {
                        0
                    }),
                    stack_weight(queue@, depth as int) <= w1 + k * p,
                    p1 == first_prev(first),
                    S::moved(init, first, s1),
                    depth > 2 ==> covered_upto(entries@, s1, p1, 184),
                    depth == 2 ==> queue@.len() == 0 && state == s1 && prev == p1 && covered_upto(entries@, s1, p1, k as int),
                decreases 184 - k,
            {
                let twist = Twist::from_index(k);
                let ghost m_k = entries@;
                if allowed.contains(twist) {
                    match prev.do_twist(twist) {
                        None => {},
                        Some(new_prev) => {
                            let new_state = state.do_twist(twist);
                            let key = new_state.subset_trie_key();
                            proof {
                                use_type_invariant(&twist);
                                lemma_reached_by_step(init, d0 as int, state, twist, new_state);
                            }
                            let mut explore = true;
                            let ghost old_m = entries@;
                            let ghost old_keys = keys@;
                            match entries.get(&key) {
                                Some(e) => {
                                    let e = *e;
                                    if e > d {
                                        entries.insert(key, d);
                                        proof {
                                            assert(witnessed(init, key, d as int));
                                            lemma_keys_insert(old_m, old_keys, key, d, false, entries@, keys@);
                                        }
                                    } else if e < d {
                                        explore = false;
                                    }
                                },
                                None => {
                                    entries.insert(key, d);
                                    keys.push(key);
                                    proof {
                                        assert(witnessed(init, key, d as int));
                                        lemma_keys_insert(old_m, old_keys, key, d, true, entries@, keys@);
                                    }
                                },
                            }
                            proof {
                                if entries@ != m_k {
                                    assert(entries@ == m_k.insert(key, d));
                                    if depth > 2 {
                                        lemma_covered_insert(m_k, s1, p1, 184, key, d);
                                    }
                                    if depth == 2 {
                                        lemma_covered_insert(m_k, s1, p1, k as int, key, d);
                                    }
                                }
                                if depth == 2 {
                                    assert(entries@.contains_key(key) && entries@[key] <= 2);
                                    assert(S::moved(s1, twist, new_state));
                                    assert(second_found(entries@, s1, twist));
                                    assert(prev.spec_do_twist_on_facet(twist_facet(twist)) is Some);
                                }
                            }
                            if explore && (d as u16) < depth {
                                let ghost before = queue@;
                                queue.push((new_state, d, new_prev));
                                proof {
                                    assert(queue@.drop_last() =~= before);
                                    assert(queue@.last() == (new_state, d, new_prev));
                                    assert(stack_weight(queue@, depth as int) == stack_weight(before, depth as int)
                                        + pow(185, (depth - d) as nat));
                                }
                            }
                        },
                    }
                }
                proof {
                    assert(w1 + k * p + p == w1 + (k + 1) * p) by (nonlinear_arith);
                    if depth == 2 {
                        assert(twist == Twist::spec_from_index(k as int));
                        assert(allowed.has(k as int) == S::can_twist(Twist::spec_from_index(k as int)));
                        assert forall|i: int|
                            0 <= i < k + 1 && S::can_twist(Twist::spec_from_index(i)) && p1.spec_do_twist_on_facet(
                                twist_facet(Twist::spec_from_index(i)),
                            ) is Some implies #[trigger] second_found(entries@, s1, Twist::spec_from_index(i)) by {
                            if i < k {
                            } else {
                                assert(Twist::spec_from_index(i) == twist);
                            }
                        }
                    }
                }
                k = k + 1;
            }
            proof {
                let n = (depth - d0) as nat;
                if d < depth {
                    let e = (depth - d) as nat;
                    assert(n == e + 1);
                    assert((n - 1) as nat == e);
                    vstd::arithmetic::power::lemma_pow_adds(185, e, 1);
                    vstd::arithmetic::power::lemma_pow1(185);
                    assert(pow(185, n) == pow(185, e) * 185);
                    assert(184 * p < p * 185) by (nonlinear_arith)
                        requires
                            p > 0,
                    ;
                }
                vstd::arithmetic::power::lemma_pow_positive(185, n);
                assert(w0 == w1 + pow(185, n));
                assert(k == 184);
                assert(stack_weight(queue@, depth as int) <= w1 + 184 * p);
                assert(stack_weight(queue@, depth as int) < w0);
                lemma_stack_weight_nonneg(queue@, depth as int);
            }
        }
        depth = depth + 1;
    }
    proof {
        if max_depth >= 1 {
            assert(entries@.contains_key(s1.spec_subset_trie_key()));
        }
        if max_depth >= 2 {
            assert(depth > 2);
            assert(covered_upto(entries@, s1, p1, 184));
        }
        if max_depth >= 1 {
            assert(S::moved(init, first, s1) && entries@.contains_key(s1.spec_subset_trie_key())
                && entries@[s1.spec_subset_trie_key()] <= 1 && (max_depth >= 2 ==> covered_upto(
                entries@,
                s1,
                first_prev(first),
                184,
            )));
            assert(exists|s: S|
                S::moved(init, first, s) && #[trigger] entries@.contains_key(s.spec_subset_trie_key())
                    && entries@[s.spec_subset_trie_key()] <= 1 && (max_depth >= 2 ==> covered_upto(
                    entries@,
                    s,
                    first_prev(first),
                    184,
                )));
        }
    }
    let ghost m = entries@;
    let r = (entries, keys);
    assert(r.0@ == m);
    r
}

/// Whether some state that the twist takes the stage's target to has its
/// key in the map, with a depth of at most 1.
pub open spec fn first_twist_found<S: SubsetMaskStage>(m: Map<u128, u8>, t: Twist) -> bool {
    exists|n: S|
        S::moved(S::spec_target(), t, n) && #[trigger] m.contains_key(n.spec_subset_trie_key()) && m[n.spec_subset_trie_key()]
            <= 1
}

/// Whether some state that the twist takes the stage's target to has, for
/// every second twist (see [`covered_upto`]), its key in the map at a depth
/// of at most 2.
pub open spec fn second_twists_found<S: SubsetMaskStage>(m: Map<u128, u8>, t: Twist) -> bool {
    exists|s1: S| #[trigger] S::moved(S::spec_target(), t, s1) && covered_upto(m, s1, first_prev(t), 184)
}

/// A map that keeps every key of another, at no greater depth, keeps what
/// [`first_twist_found`] says of it.
proof fn lemma_first_twist_kept<S: SubsetMaskStage>(m1: Map<u128, u8>, m2: Map<u128, u8>, t: Twist)
    requires
        first_twist_found::<S>(m1, t),
        forall|k: u128| #[trigger] m1.contains_key(k) ==> m2.contains_key(k) && m2[k] <= m1[k],
    ensures
        first_twist_found::<S>(m2, t),
{
    let n = choose|n: S|
        S::moved(S::spec_target(), t, n) && #[trigger] m1.contains_key(n.spec_subset_trie_key()) && m1[n.spec_subset_trie_key()]
            <= 1;
    assert(m2.contains_key(n.spec_subset_trie_key()));
}

impl SubsetTrie {
    /// Generates the trie from the stage's target: the target's key with
    /// value 0, and the key of every state found from the target by a
    /// canonical sequence of at most `max_depth` twists (see
    /// [`explore_from`]) with the lowest depth found for it. Every lookup is
    /// backed by a key found at the depth it gives; the target's key and its
    /// subsets give 0, and (for a depth of at least 1) the key of each state
    /// one twist of the stage away from the target gives at most 1, and (for
    /// a depth of at least 2) of each state a canonical pair of twists away
    /// at most 2.
    pub fn new<S: SubsetMaskStage>(max_depth: u8) -> (r: Self)
        ensures
            r.wf_depth(S::spec_key_bits() as int),
            forall|bits: u128|
                matches_key(S::spec_target().spec_subset_trie_key(), bits, S::spec_key_bits() as int)
                    ==> #[trigger] r.spec_lookup(bits) == Some(0u8),
            forall|bits: u128|
                #[trigger] r.spec_lookup(bits) matches Some(v) ==> exists|k: u128|
                    matches_key(k, bits, S::spec_key_bits() as int) && witnessed(S::spec_target(), k, v as int),
            max_depth >= 1 ==> forall|t: Twist|
                S::can_twist(t) && t.inv() ==> exists|n: S|
                    #[trigger] S::moved(S::spec_target(), t, n) && r.spec_lookup(n.spec_subset_trie_key()) is Some
                        && r.spec_lookup(n.spec_subset_trie_key())->0 <= 1,
            max_depth >= 2 ==> forall|t1: Twist, t2: Twist|
                S::can_twist(t1) && t1.inv() && S::can_twist(t2) && t2.inv() && #[trigger] canonical_pair(t1, t2) ==> exists|n1: S, n2: S|
                    S::moved(S::spec_target(), t1, n1) && #[trigger] S::moved(n1, t2, n2) && r.spec_lookup(
                        n2.spec_subset_trie_key(),
                    ) is Some && r.spec_lookup(n2.spec_subset_trie_key())->0 <= 2,
    {
        let total_bits = S::subset_trie_key_bits();
        let init_mask = S::subset_trie_target();
        let allowed = S::twists();
        let mut merged: HashMap<u128, u8> = HashMap::new();
        let mut merged_keys: Vec<u128> = Vec::new();
        let mut t: u8 = 0;
        while t < 184
            invariant
                0 <= t <= 184,
                init_mask == S::spec_target(),
                forall|i: int| 0 <= i < 184 ==> #[trigger] allowed.has(i) == S::can_twist(Twist::spec_from_index(i)),
                entries_ok(init_mask, merged@, merged_keys@),
                max_depth >= 1 ==> forall|tt: int|
                    0 <= tt < t && S::can_twist(#[trigger] Twist::spec_from_index(tt)) ==> first_twist_found::<S>(
                        merged@,
                        Twist::spec_from_index(tt),
                    ),
                max_depth >= 2 ==> forall|tt: int|
                    0 <= tt < t && S::can_twist(#[trigger] Twist::spec_from_index(tt)) ==> second_twists_found::<S>(
                        merged@,
                        Twist::spec_from_index(tt),
                    ),
            decreases 184 - t,
        {
            let first = Twist::from_index(t);
            let ghost merged0 = merged@;
            if allowed.contains(first) {
                let (entries, keys) = explore_from(init_mask, first, max_depth, &allowed);
                let mut i: usize = 0;
                while i < keys.len()
                    invariant
                        0 <= i <= keys@.len(),
                        entries_ok(init_mask, entries@, keys@),
                        entries_ok(init_mask, merged@, merged_keys@),
                        forall|kk: u128| #[trigger] merged0.contains_key(kk) ==> merged@.contains_key(kk) && merged@[kk] <= merged0[kk],
                        forall|ii: int|
                            0 <= ii < i ==> merged@.contains_key(#[trigger] keys@[ii]) && merged@[keys@[ii]] <= entries@[keys@[ii]],
                    decreases keys@.len() - i,
                {
                    let k = keys[i];
                    proof {
                        assert(keys@.contains(k));
                    }
                    let v = match entries.get(&k) {
                        Some(v) => *v,
                        None => 0,
                    };
                    let ghost old_m = merged@;
                    let ghost old_keys = merged_keys@;
                    match merged.get(&k) {
                        Some(e) => {
                            let e = *e;
                            merged.insert(k, if e <= v { e } else { v });
                            proof {
                                lemma_keys_insert(old_m, old_keys, k, if e <= v { e } else { v }, false, merged@, merged_keys@);
                            }
                        },
                        None => {
                            merged.insert(k, v);
                            merged_keys.push(k);
                            proof {
                                lemma_keys_insert(old_m, old_keys, k, v, true, merged@, merged_keys@);
                            }
                        },
                    }
                    proof {
                        assert forall|kk: u128| #[trigger] merged0.contains_key(kk) implies merged@.contains_key(kk)
                            && merged@[kk] <= merged0[kk] by {
                            assert(old_m.contains_key(kk));
                        }
                        assert forall|ii: int| 0 <= ii < i + 1 implies merged@.contains_key(#[trigger] keys@[ii])
                            && merged@[keys@[ii]] <= entries@[keys@[ii]] by {
                            if ii < i {
                                assert(old_m.contains_key(keys@[ii]));
                            }
                        }
                    }
                    i = i + 1;
                }
                proof {
                    if max_depth >= 1 {
                        let s1 = choose|s1: S|
                            S::moved(init_mask, first, s1) && #[trigger] entries@.contains_key(s1.spec_subset_trie_key())
                                && entries@[s1.spec_subset_trie_key()] <= 1;
                        let key = s1.spec_subset_trie_key();
                        assert(keys@.contains(key));
                        let ii = choose|ii: int| 0 <= ii < keys@.len() && keys@[ii] == key;
                        assert(merged@.contains_key(keys@[ii]));
                        assert(first_twist_found::<S>(merged@, first));
                        assert forall|tt: int|
                            0 <= tt < t + 1 && S::can_twist(#[trigger] Twist::spec_from_index(tt)) implies first_twist_found::<S>(
                            merged@,
                            Twist::spec_from_index(tt),
                        ) by {
                            if tt < t {
                                lemma_first_twist_kept::<S>(merged0, merged@, Twist::spec_from_index(tt));
                            }
                        }
                    }
                    if max_depth >= 2 {
                        let s1 = choose|s1: S|
                            S::moved(init_mask, first, s1) && #[trigger] entries@.contains_key(s1.spec_subset_trie_key())
                                && entries@[s1.spec_subset_trie_key()] <= 1 && (max_depth >= 2 ==> covered_upto(
                                entries@,
                                s1,
                                first_prev(first),
                                184,
                            ));
                        assert forall|kk: u128| #[trigger] entries@.contains_key(kk) implies merged@.contains_key(kk)
                            && merged@[kk] <= entries@[kk] by {
                            assert(keys@.contains(kk));
                            let ii = choose|ii: int| 0 <= ii < keys@.len() && keys@[ii] == kk;
                            assert(merged@.contains_key(keys@[ii]));
                        }
                        lemma_covered_kept(entries@, merged@, s1, first_prev(first));
                        assert(second_twists_found::<S>(merged@, first));
                        assert forall|tt: int|
                            0 <= tt < t + 1 && S::can_twist(#[trigger] Twist::spec_from_index(tt)) implies second_twists_found::<S>(
                            merged@,
                            Twist::spec_from_index(tt),
                        ) by {
                            if tt < t {
                                let tw = Twist::spec_from_index(tt);
                                assert(second_twists_found::<S>(merged0, tw));
                                let s1b = choose|s1b: S|
                                    #[trigger] S::moved(S::spec_target(), tw, s1b) && covered_upto(merged0, s1b, first_prev(tw), 184);
                                lemma_covered_kept(merged0, merged@, s1b, first_prev(tw));
                            }
                        }
                    }
                }
            } else {
                proof {
                    assert(!allowed.has(t as int));
                }
            }
            t = t + 1;
        }
        let tk = init_mask.subset_trie_key();
        let mut ret = SubsetTrie::Empty;
        ret.insert_if_better(tk, total_bits, 0);
        proof {
            lemma_reached_start(init_mask);
            assert(witnessed(init_mask, tk, 0));
            assert forall|bits: u128| #[trigger] ret.spec_lookup(bits) is Some implies exists|k: u128|
                matches_key(k, bits, total_bits as int) && witnessed(
                    init_mask,
                    k,
                    ret.spec_lookup(bits)->0 as int,
                ) by {
                assert(matches_key(tk, bits, total_bits as int));
            }
        }
        let mut i: usize = 0;
        while i < merged_keys.len()
            invariant
                0 <= i <= merged_keys@.len(),
                init_mask == S::spec_target(),
                tk == init_mask.spec_subset_trie_key(),
                total_bits == S::spec_key_bits(),
                entries_ok(init_mask, merged@, merged_keys@),
                ret.wf_depth(total_bits as int),
                forall|bits: u128| matches_key(tk, bits, total_bits as int) ==> #[trigger] ret.spec_lookup(bits) == Some(0u8),
                forall|bits: u128|
                    #[trigger] ret.spec_lookup(bits) matches Some(v) ==> exists|k: u128|
                        matches_key(k, bits, total_bits as int) && witnessed(init_mask, k, v as int),
                forall|ii: int|
                    0 <= ii < i ==> ret.spec_lookup(#[trigger] merged_keys@[ii]) is Some && ret.spec_lookup(merged_keys@[ii])->0
                        <= merged@[merged_keys@[ii]],
                max_depth >= 1 ==> forall|tt: int|
                    0 <= tt < 184 && S::can_twist(#[trigger] Twist::spec_from_index(tt)) ==> first_twist_found::<S>(
                        merged@,
                        Twist::spec_from_index(tt),
                    ),
                max_depth >= 2 ==> forall|tt: int|
                    0 <= tt < 184 && S::can_twist(#[trigger] Twist::spec_from_index(tt)) ==> second_twists_found::<S>(
                        merged@,
                        Twist::spec_from_index(tt),
                    ),
            decreases merged_keys@.len() - i,
        {
            let k = merged_keys[i];
            proof {
                assert(merged_keys@.contains(k));
            }
            match merged.get(&k) {
                Some(v) => {
                    let v = *v;
                    let ghost old_ret = ret;
                    ret.insert_if_better(k, total_bits, v);
                    proof {
                        assert(witnessed(init_mask, k, v as int));
                        assert forall|bits: u128| #[trigger] ret.spec_lookup(bits) is Some implies exists|kk: u128|
                            matches_key(kk, bits, total_bits as int) && witnessed(
                                init_mask,
                                kk,
                                ret.spec_lookup(bits)->0 as int,
                            ) by {
                            if old_ret.spec_lookup(bits) is Some && ret.spec_lookup(bits) == old_ret.spec_lookup(bits) {
                            } else {
                                assert(matches_key(k, bits, total_bits as int));
                            }
                        }
                        assert forall|bits: u128| matches_key(tk, bits, total_bits as int) implies #[trigger] ret.spec_lookup(bits)
                            == Some(0u8) by {
                            assert(old_ret.spec_lookup(bits) == Some(0u8));
                        }
                        lemma_matches_self(k, total_bits as int);
                        assert(ret.spec_lookup(k) == better(old_ret.spec_lookup(k), Some(v)));
                        assert forall|ii: int| 0 <= ii < i + 1 implies ret.spec_lookup(#[trigger] merged_keys@[ii]) is Some
                            && ret.spec_lookup(merged_keys@[ii])->0 <= merged@[merged_keys@[ii]] by {
                            let b = merged_keys@[ii];
                            assert(ret.spec_lookup(b) == better(
                                old_ret.spec_lookup(b),
                                if matches_key(k, b, total_bits as int) {
                                    Some(v)
                                } else {
                                    None
                                },
                            ));
                        }
                    }
                },
                None => {
                    assert(false);
                },
            }
            i = i + 1;
        }
        proof {
            if max_depth >= 1 {
                assert forall|t: Twist| S::can_twist(t) && t.inv() implies exists|n: S|
                    #[trigger] S::moved(S::spec_target(), t, n) && ret.spec_lookup(n.spec_subset_trie_key()) is Some
                        && ret.spec_lookup(n.spec_subset_trie_key())->0 <= 1 by {
                    t.lemma_idx();
                    assert(first_twist_found::<S>(merged@, Twist::spec_from_index(t.idx())));
                    let n = choose|n: S|
                        S::moved(S::spec_target(), t, n) && #[trigger] merged@.contains_key(n.spec_subset_trie_key())
                            && merged@[n.spec_subset_trie_key()] <= 1;
                    let key = n.spec_subset_trie_key();
                    assert(merged_keys@.contains(key));
                    let ii = choose|ii: int| 0 <= ii < merged_keys@.len() && merged_keys@[ii] == key;
                    assert(ret.spec_lookup(merged_keys@[ii]) is Some);
                }
            }
            if max_depth >= 2 {
                assert forall|t1: Twist, t2: Twist|
                    S::can_twist(t1) && t1.inv() && S::can_twist(t2) && t2.inv() && #[trigger] canonical_pair(t1, t2) implies exists|n1: S, n2: S|
                    S::moved(S::spec_target(), t1, n1) && #[trigger] S::moved(n1, t2, n2) && ret.spec_lookup(
                        n2.spec_subset_trie_key(),
                    ) is Some && ret.spec_lookup(n2.spec_subset_trie_key())->0 <= 2 by {
                    t1.lemma_idx();
                    t2.lemma_idx();
                    reveal_with_fuel(canonical_after, 3);
                    let ts = seq![t1, t2];
                    assert(ts[0] == t1 && ts.drop_first() =~= seq![t2]);
                    let p = PrevTwists(None).spec_do_twist_on_facet(twist_facet(t1))->0;
                    assert(first_prev(t1) == p);
                    assert(seq![t2][0] == t2);
                    assert(p.spec_do_twist_on_facet(twist_facet(t2)) is Some);
                    assert(second_twists_found::<S>(merged@, Twist::spec_from_index(t1.idx())));
                    let s1 = choose|s1: S| #[trigger] S::moved(S::spec_target(), t1, s1) && covered_upto(merged@, s1, first_prev(t1), 184);
                    assert(second_found(merged@, s1, Twist::spec_from_index(t2.idx())));
                    let n = choose|n: S|
                        #[trigger] S::moved(s1, t2, n) && merged@.contains_key(n.spec_subset_trie_key())
                            && merged@[n.spec_subset_trie_key()] <= 2;
                    let key = n.spec_subset_trie_key();
                    assert(merged_keys@.contains(key));
                    let ii = choose|ii: int| 0 <= ii < merged_keys@.len() && merged_keys@[ii] == key;
                    assert(ret.spec_lookup(merged_keys@[ii]) is Some);
                }
            }
        }
        ret
    }
}

/// Returns 16 empty children.
fn empty_children() -> (r: Vec<SubsetTrie>)
    ensures
        r@.len() == BRANCHING_FACTOR,
        forall|i: int| 0 <= i < r@.len() ==> #[trigger] r@[i] == SubsetTrie::Empty,
{
    let mut r: Vec<SubsetTrie> = Vec::new();
    let mut i: usize = 0;
    while i < BRANCHING_FACTOR
        invariant
            0 <= i <= BRANCHING_FACTOR,
            r@.len() == i,
            forall|j: int| 0 <= j < r@.len() ==> #[trigger] r@[j] == SubsetTrie::Empty,
        decreases BRANCHING_FACTOR - i,
    {
        r.push(SubsetTrie::Empty);
        i = i + 1;
    }
    r
}

/// Empty children hold no entry.
proof fn lemma_empty_children(children: Seq<SubsetTrie>, k: int)
    requires
        forall|i: int| 0 <= i < children.len() ==> #[trigger] children[i] == SubsetTrie::Empty,
    ensures
        forall|bits: u128| #[trigger] lookup_children(children, bits, k) == None::<u8>,
    decreases k,
{
    if k > 0 {
        lemma_empty_children(children, k - 1);
        assert forall|bits: u128| #[trigger] lookup_children(children, bits, k) == None::<u8> by {
            assert(lookup_children(children, bits, k - 1) == None::<u8>);
            if k <= children.len() {
                assert(children[k - 1] == SubsetTrie::Empty);
                assert(children[k - 1].spec_lookup(bits >> 4u128) == None::<u8>);
            }
        }
    }
}

/// Replacing one child by one whose lookups gain `x` gains `x` in the
/// lookups of the children, where that child's index matches.
proof fn lemma_update_children(
    children: Seq<SubsetTrie>,
    bits: u128,
    k: int,
    idx: int,
    c: SubsetTrie,
    x: Option<u8>,
)
    requires
        0 <= idx < children.len(),
        k <= children.len(),
        c.spec_lookup(bits >> 4u128) == better(children[idx].spec_lookup(bits >> 4u128), x),
    ensures
        lookup_children(children.update(idx, c), bits, k) == if k > idx && (bits & !(idx as u128)) & 15 == 0 {
            better(lookup_children(children, bits, k), x)
        } else {
            lookup_children(children, bits, k)
        },
    decreases k,
{
    let u = children.update(idx, c);
    if k > 0 {
        lemma_update_children(children, bits, k - 1, idx, c, x);
        assert(u[k - 1] == if k - 1 == idx { c } else { children[k - 1] });
    }
}

/// Four bits of a key make a child index, and the key's four bits are a
/// subset of themselves.
proof fn lemma_chunk_small(key: u128)
    ensures
        key & 15 < 16,
        (key & !key) & 15 == 0,
{
    assert(key & 15 < 16 && (key & !key) & 15 == 0) by (bit_vector);
}

/// A key matches itself as a lookup key.
pub proof fn lemma_matches_self(key: u128, n: int)
    ensures
        matches_key(key, key, n),
    decreases n,
{
    if n > 0 {
        lemma_chunk_small(key);
        lemma_matches_self(key >> 4u128, if n > 4 { n - 4 } else { 0 });
    }
}

/// The child that a key goes to matches a lookup key at this level exactly
/// when the lookup key's four bits are a subset of the key's four bits.
proof fn lemma_key_chunk(key: u128, bits: u128, idx: usize)
    requires
        idx == key & 15,
    ensures
        ((bits & !(idx as u128)) & 15 == 0) == ((bits & !key) & 15 == 0),
{
    let i = idx as u128;
    assert(((bits & !i) & 15 == 0) == ((bits & !key) & 15 == 0)) by (bit_vector)
        requires
            i == key & 15,
    ;
}

} // verus!
