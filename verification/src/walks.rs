//! Walks can be shortened until they visit no state twice, which bounds the
//! cost of the cheapest walk to any reachable state.

use crate::rule::{
    is_walk, lemma_walk_prefix, lemma_walk_stays_valid, linked, reaches, TransitionRule,
};
use crate::state::ExtendedState;
use vstd::prelude::*;

verus! {

/// Among more than `n` numbers below `n`, two are equal.
pub proof fn lemma_pigeonhole(s: Seq<int>, n: int)
    requires
        0 <= n < s.len(),
        forall|i: int| 0 <= i < s.len() ==> 0 <= #[trigger] s[i] < n,
    ensures
        exists|i: int, j: int| 0 <= i < j < s.len() && s[i] == s[j],
    decreases n,
{
    if n == 0 {
        let first = s[0];
        assert(0 <= first < n);
    } else {
        let last = s.last();
        let rest = s.drop_last();
        if exists|i: int| 0 <= i < rest.len() && rest[i] == last {
            let i = choose|i: int| 0 <= i < rest.len() && rest[i] == last;
            assert(s[i] == s[s.len() - 1]);
        } else {
            let moved = Seq::new(
                rest.len(),
                |i: int|
                    if rest[i] == n - 1 {
                        last
                    } else {
                        rest[i]
                    },
            );
            assert forall|i: int| 0 <= i < moved.len() implies 0 <= #[trigger] moved[i] < n
                - 1 by {
                assert(0 <= s[i] < n);
                assert(0 <= s[s.len() - 1] < n);
                assert(rest[i] != last);
            }
            lemma_pigeonhole(moved, n - 1);
            let (i, j) = choose|i: int, j: int| 0 <= i < j < moved.len() && moved[i] == moved[j];
            assert(rest[i] != last);
            assert(rest[j] != last);
            assert(s[i] == s[j]);
        }
    }
}

/// Along a walk the accumulated cost never falls: no move has a negative
/// cost. This is what lets a search stop at the first goal entry that
/// leaves the frontier.
pub proof fn lemma_costs_rise<R: TransitionRule>(
    rule: &R,
    start: ExtendedState,
    walk: Seq<(ExtendedState, int)>,
    i: int,
    j: int,
)
    requires
        is_walk(rule, start, walk),
        0 <= i <= j < walk.len(),
    ensures
        0 <= walk[i].1 <= walk[j].1,
    decreases j,
{
    if j > 0 {
        assert(linked(rule, walk[j - 1], walk[j - 1 + 1]));
        if i < j {
            lemma_costs_rise(rule, start, walk, i, j - 1);
        } else {
            lemma_costs_rise(rule, start, walk, 0, j - 1);
        }
    }
}

/// A walk of `n` hops costs at most `n - 1` times the bound on one move.
pub proof fn lemma_walk_cost_bounded<R: TransitionRule>(
    rule: &R,
    start: ExtendedState,
    walk: Seq<(ExtendedState, int)>,
)
    requires
        rule.wf(),
        rule.valid(start),
        is_walk(rule, start, walk),
    ensures
        walk.last().1 <= (walk.len() - 1) * rule.step_bound(),
    decreases walk.len(),
{
    if walk.len() > 1 {
        lemma_walk_prefix(rule, start, walk);
        let shorter = walk.drop_last();
        lemma_walk_cost_bounded(rule, start, shorter);
        lemma_walk_stays_valid(rule, start, shorter);
        let a = walk[walk.len() - 2];
        let b = walk.last();
        assert(shorter.last() == a);
        let j = choose|j: int|
            0 <= j < rule.moves(a.0).len() && (#[trigger] rule.moves(a.0)[j]).0 == b.0 && a.1
                + rule.moves(a.0)[j].1 == b.1;
        rule.lemma_moves_valid(a.0, j);
        let n = walk.len() as int;
        let bound = rule.step_bound() as int;
        assert((n - 1) * bound == (n - 2) * bound + bound) by (nonlinear_arith);
    }
}

/// The walk with the hops after `i` up to `j` left out, and the later
/// costs lowered by what the part left out had cost.
pub open spec fn without_cycle(walk: Seq<(ExtendedState, int)>, i: int, j: int) -> Seq<
    (ExtendedState, int),
> {
    Seq::new(
        (walk.len() - (j - i)) as nat,
        |k: int|
            if k <= i {
                walk[k]
            } else {
                (walk[k + (j - i)].0, walk[k + (j - i)].1 - (walk[j].1 - walk[i].1))
            },
    )
}

/// Leaving out the part of a walk between two visits of one state gives a
/// shorter walk to the same state at no higher cost.
pub proof fn lemma_cycle_cut<R: TransitionRule>(
    rule: &R,
    start: ExtendedState,
    walk: Seq<(ExtendedState, int)>,
    i: int,
    j: int,
)
    requires
        is_walk(rule, start, walk),
        0 <= i < j < walk.len(),
        walk[i].0 == walk[j].0,
    ensures
        is_walk(rule, start, without_cycle(walk, i, j)),
        without_cycle(walk, i, j).len() < walk.len(),
        without_cycle(walk, i, j).last().0 == walk.last().0,
        without_cycle(walk, i, j).last().1 <= walk.last().1,
{
    let cut = without_cycle(walk, i, j);
    let gap = j - i;
    let saved = walk[j].1 - walk[i].1;
    lemma_costs_rise(rule, start, walk, i, j);
    assert forall|k: int| 0 <= k < cut.len() - 1 implies linked(
        rule,
        #[trigger] cut[k],
        cut[k + 1],
    ) by {
        if k < i {
            assert(linked(rule, walk[k], walk[k + 1]));
        } else {
            let a = walk[k + gap];
            let b = walk[k + gap + 1];
            assert(linked(rule, a, b));
            let m = choose|m: int|
                0 <= m < rule.moves(a.0).len() && (#[trigger] rule.moves(a.0)[m]).0 == b.0 && a.1
                    + rule.moves(a.0)[m].1 == b.1;
            assert(cut[k].0 == a.0);
            assert(cut[k].1 == a.1 - saved);
            assert(cut[k + 1] == (b.0, b.1 - saved));
            assert(rule.moves(cut[k].0)[m].0 == cut[k + 1].0 && cut[k].1 + rule.moves(
                cut[k].0,
            )[m].1 == cut[k + 1].1);
        }
    }
    assert(cut[0] == walk[0]);
}

/// Whatever a walk reaches, a walk of at most as many hops as the rule has
/// slots reaches at no higher cost.
pub proof fn lemma_short_walk<R: TransitionRule>(
    rule: &R,
    start: ExtendedState,
    walk: Seq<(ExtendedState, int)>,
) -> (short: Seq<(ExtendedState, int)>)
    requires
        rule.wf(),
        rule.valid(start),
        is_walk(rule, start, walk),
    ensures
        is_walk(rule, start, short),
        short.len() <= rule.slots(),
        short.last().0 == walk.last().0,
        short.last().1 <= walk.last().1,
    decreases walk.len(),
{
    if walk.len() <= rule.slots() {
        walk
    } else {
        let slots_of = Seq::new(walk.len(), |k: int| rule.slot(walk[k].0) as int);
        assert forall|k: int| 0 <= k < slots_of.len() implies 0 <= #[trigger] slots_of[k]
            < rule.slots() by {
            lemma_state_valid_at(rule, start, walk, k);
            rule.lemma_slot_in_range(walk[k].0);
        }
        lemma_pigeonhole(slots_of, rule.slots() as int);
        let (i, j) = choose|i: int, j: int|
            0 <= i < j < slots_of.len() && slots_of[i] == slots_of[j];
        lemma_state_valid_at(rule, start, walk, i);
        lemma_state_valid_at(rule, start, walk, j);
        rule.lemma_slot_injective(walk[i].0, walk[j].0);
        lemma_cycle_cut(rule, start, walk, i, j);
        lemma_short_walk(rule, start, without_cycle(walk, i, j))
    }
}

/// Every hop of a walk from a valid start sits on a valid state.
pub proof fn lemma_state_valid_at<R: TransitionRule>(
    rule: &R,
    start: ExtendedState,
    walk: Seq<(ExtendedState, int)>,
    k: int,
)
    requires
        rule.wf(),
        rule.valid(start),
        is_walk(rule, start, walk),
        0 <= k < walk.len(),
    ensures
        rule.valid(walk[k].0),
    decreases walk.len(),
{
    if k == walk.len() - 1 {
        lemma_walk_stays_valid(rule, start, walk);
    } else {
        lemma_walk_prefix(rule, start, walk);
        lemma_state_valid_at(rule, start, walk.drop_last(), k);
    }
}

/// Whatever a walk reaches, some walk reaches at a cost that is no higher
/// and fits in `u64`.
pub proof fn lemma_reached_within_range<R: TransitionRule>(
    rule: &R,
    start: ExtendedState,
    state: ExtendedState,
    cost: int,
)
    requires
        rule.wf(),
        rule.valid(start),
        reaches(rule, start, state, cost),
    ensures
        exists|low: int|
            low <= cost && low <= u64::MAX && #[trigger] reaches(rule, start, state, low),
{
    let walk = choose|walk: Seq<(ExtendedState, int)>| #[trigger]
        is_walk(rule, start, walk) && walk.last() == (state, cost);
    let short = lemma_short_walk(rule, start, walk);
    lemma_walk_cost_bounded(rule, start, short);
    rule.lemma_sizes();
    let low = short.last().1;
    let n = short.len() as int;
    let slots = rule.slots() as int;
    let bound = rule.step_bound() as int;
    assert((n - 1) * bound <= slots * bound) by (nonlinear_arith)
        requires
            n - 1 <= slots,
            0 <= bound,
    ;
    assert(short.last() == (state, low));
    assert(reaches(rule, start, state, low));
}

} // verus!
