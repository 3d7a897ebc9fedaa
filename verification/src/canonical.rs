//! Canonical twist sequences.
//!
//! A twist sequence is canonical if it obeys the following rules:
//!
//! 1. A twist is never followed by another twist of the same facet.
//! 2. A twist of a negative facet is never followed by a twist of the
//!    positive facet on the same axis.
use vstd::prelude::*;

use crate::linalg::{Facet, Sign};
use crate::puzzle::Twist;

verus! {

/// Whether a twist of `next` may follow a twist of `last` in a canonical
/// sequence.
pub open spec fn may_follow(last: Facet, next: Facet) -> bool {
    last.spec_axis() != next.spec_axis() || (last.spec_sign() == Sign::Pos && next.spec_sign()
        == Sign::Neg)
}

/// Whether a sequence of twisted facets is canonical.
pub open spec fn is_canonical(facets: Seq<Facet>) -> bool {
    forall|i: int| 0 <= i < facets.len() - 1 ==> may_follow(#[trigger] facets[i], facets[i + 1])
}

/// State of a canonical twist sequence generator: the facet of the last
/// twist, if any.
#[derive(Debug, Default, Copy, Clone, PartialEq, Eq, Structural, Hash)]
pub struct PrevTwists(pub Option<Facet>);

/// The state after feeding the facets of `facets` to the generator, or `None`
/// if one of them is refused.
pub open spec fn run_prev_twists(start: PrevTwists, facets: Seq<Facet>) -> Option<PrevTwists>
    decreases facets.len(),
{
    if facets.len() == 0 {
        Some(start)
    } else {
        match run_prev_twists(start, facets.drop_last()) {
            Some(p) => p.spec_do_twist_on_facet(facets.last()),
            None => None,
        }
    }
}

impl PrevTwists {
    /// The state after a twist on `facet`, or `None` if no canonical
    /// sequence continues this way.
    pub open spec fn spec_do_twist_on_facet(self, facet: Facet) -> Option<PrevTwists> {
        match self.0 {
            Some(last) => if may_follow(last, facet) {
                Some(PrevTwists(Some(facet)))
            } else {
                None
            },
            None => Some(PrevTwists(Some(facet))),
        }
    }

    /// Constructs the state for an empty canonical twist sequence.
    pub fn new() -> (r: PrevTwists)
        ensures
            r == PrevTwists(None),
    {
        PrevTwists(None)
    }

    /// Returns the new state after a twist, or `None` if `twist` is not the
    /// next element in any canonical twist sequence.
    pub fn do_twist(self, twist: Twist) -> (r: Option<PrevTwists>)
        ensures
            r == self.spec_do_twist_on_facet(crate::linalg::facet::facet_of(twist.idx() / 23)),
    {
        let f = twist.facet();
        proof {
            crate::linalg::facet::lemma_facet_of_idx(f);
        }
        self.do_twist_on_facet(f)
    }

    /// Returns the new state after a twist on the given facet, or `None` if
    /// such a twist cannot be the next element in any canonical twist
    /// sequence.
    pub fn do_twist_on_facet(self, facet: Facet) -> (r: Option<PrevTwists>)
        ensures
            r == self.spec_do_twist_on_facet(facet),
    {
        let allowed = match self.0 {
            Some(last_facet) => last_facet.axis() != facet.axis() || (last_facet.sign() == Sign::Pos
                && facet.sign() == Sign::Neg),
            None => true,
        };
        if allowed {
            Some(PrevTwists(Some(facet)))
        } else {
            None
        }
    }
}

/// Feeding a sequence of facets to a fresh generator succeeds exactly when
/// the sequence is canonical, and then the state holds the last facet.
pub proof fn law_prev_twists_accepts_canonical(facets: Seq<Facet>)
    ensures
        run_prev_twists(PrevTwists(None), facets) is Some <==> is_canonical(facets),
        facets.len() > 0 && is_canonical(facets) ==> run_prev_twists(PrevTwists(None), facets)
            == Some(PrevTwists(Some(facets.last()))),
        facets.len() == 0 ==> run_prev_twists(PrevTwists(None), facets) == Some(PrevTwists(None)),
    decreases facets.len(),
{
    if facets.len() > 0 {
        let init = facets.drop_last();
        law_prev_twists_accepts_canonical(init);
        if is_canonical(facets) {
            assert forall|i: int| 0 <= i < init.len() - 1 implies may_follow(
                #[trigger] init[i],
                init[i + 1],
            ) by {
                assert(init[i] == facets[i] && init[i + 1] == facets[i + 1]);
            }
            if init.len() > 0 {
                assert(may_follow(facets[init.len() - 1], facets[init.len() as int]));
            }
        } else {
            if is_canonical(init) && init.len() > 0 {
                let i = choose|i: int|
                    0 <= i < facets.len() - 1 && !may_follow(#[trigger] facets[i], facets[i + 1]);
                if i < init.len() - 1 {
                    assert(init[i] == facets[i] && init[i + 1] == facets[i + 1]);
                }
            }
        }
    }
}

/// The two rules of canonical sequences, facet by facet: after a twist of a
/// facet comes any twist but one of the same facet, or one of the facet
/// opposite a negative facet (`R` after `L`, `U` after `D`, `F` after `B`,
/// `O` after `I`); a positive facet may be followed by its opposite. The
/// state after an accepted twist holds its facet.
pub proof fn law_canonical_rules(last: Facet, next: Facet)
    ensures
        PrevTwists(Some(last)).spec_do_twist_on_facet(next) is Some <==> !(last == next || (last == Facet::L
            && next == Facet::R) || (last == Facet::D && next == Facet::U) || (last == Facet::B && next
            == Facet::F) || (last == Facet::I && next == Facet::O)),
        PrevTwists(Some(last)).spec_do_twist_on_facet(next) is Some ==> PrevTwists(Some(last)).spec_do_twist_on_facet(
            next,
        ) == Some(PrevTwists(Some(next))),
        PrevTwists(None).spec_do_twist_on_facet(next) == Some(PrevTwists(Some(next))),
{
    crate::linalg::facet::lemma_facet_of_idx(last);
    crate::linalg::facet::lemma_facet_of_idx(next);
    crate::linalg::axis::lemma_axis_of_idx(last.spec_axis());
    crate::linalg::axis::lemma_axis_of_idx(next.spec_axis());
}

} // verus!
