//! Predicates for the searches over quorum sets.
//!
//! A predicate is tested against one message after another. Each test that
//! succeeds hands back the predicate to use for the next message, so that a
//! predicate can narrow what it looks for as the search goes on.

use crate::ballot::{
    ballot_le, highest_ballot, highest_of, is_highest, lemma_highest_exists, BallotSet, BallotView,
    INFINITY,
};
use crate::ballot_ranges::{
    distinct_values, has_values, ranges_of, BallotRange, BallotRangeView, BallotRanges,
};
use crate::msg::{Msg, MsgView, TopicView};
use crate::node_id::NodeSet;
use crate::statements::{
    intersect_windows, window, accepts_commits, accepts_nominated, accepts_prepared, votes_or_accepts_commits,
    votes_or_accepts_nominated, votes_or_accepts_prepared,
};
use crate::value::{keys_lt, keys_of, lemma_keys_lt_total, lemma_keys_lt_transitive, Rank, Value};
use crate::value_set::{replicate_values, ValueSet};
use vstd::prelude::*;

verus! {

/// A test on messages that can change as it is applied.
pub trait Predicate<V: Value>: Sized {
    /// What the predicate looks for, as a mathematical value.
    type State;

    /// What the predicate has found when the search ends.
    type Result;

    /// What the predicate looks for.
    open spec fn state(&self) -> Self::State {
        arbitrary()
    }

    /// What a predicate in state `state` turns into on `msg`; nothing where
    /// the message cannot take part.
    open spec fn step(state: Self::State, msg: MsgView) -> Option<Self::State> {
        arbitrary()
    }

    /// Tests `msg`: the predicate for the next message, or nothing where
    /// `msg` cannot take part in the search.
    fn test(&self, msg: &Msg<V>) -> (r: Option<Self>)
        ensures
            match r {
                Some(p) => Self::step(self.state(), msg@) == Some(p.state()),
                None => Self::step(self.state(), msg@) is None,
            },
    ;

    /// What the predicate has narrowed its search down to.
    fn result(&self) -> (r: Self::Result)
    ;

    /// A copy of the predicate.
    fn duplicate(&self) -> (r: Self)
        ensures
            r.state() == self.state(),
    ;
}

/// Which statements of a message a predicate goes by.
#[derive(Clone, Copy, Debug, PartialEq, Eq, Structural)]
pub enum Claim {
    /// What the sender votes for or accepts.
    VotesOrAccepts,
    /// What the sender accepts.
    Accepts,
}

/// The values that `t` states under `claim`.
pub open spec fn claimed_values(claim: Claim, t: TopicView) -> Set<Seq<u8>> {
    let stated = match claim {
        Claim::VotesOrAccepts => votes_or_accepts_nominated(t),
        Claim::Accepts => accepts_nominated(t),
    };
    match stated {
        Some(s) => s,
        None => Set::empty(),
    }
}

/// The ballots that `t` states as prepared under `claim`.
pub open spec fn claimed_ballots(claim: Claim, t: TopicView) -> Set<BallotView> {
    match claim {
        Claim::VotesOrAccepts => votes_or_accepts_prepared(t),
        Claim::Accepts => accepts_prepared(t),
    }
}

/// The part of `[min, max]` that `t` states as committed for `values` under
/// `claim`.
pub open spec fn claimed_commits(
    claim: Claim,
    t: TopicView,
    values: Seq<Seq<u8>>,
    min: u32,
    max: u32,
) -> Option<(u32, u32)> {
    match claim {
        Claim::VotesOrAccepts => votes_or_accepts_commits(t, values, min, max),
        Claim::Accepts => accepts_commits(t, values, min, max),
    }
}

/// A predicate that narrows down a set of ballots.
pub struct BallotSetPredicate<V: Value> {
    /// The ballots still looked for.
    pub ballots: BallotSet<V>,
    /// Which statements of a message count.
    pub claim: Claim,
}

/// What a [`BallotSetPredicate`] looks for.
pub struct BallotSetState {
    pub ballots: Set<BallotView>,
    pub claim: Claim,
}

impl<V: Value> Predicate<V> for BallotSetPredicate<V> {
    type State = BallotSetState;

    type Result = BallotSet<V>;

    open spec fn state(&self) -> BallotSetState {
        BallotSetState { ballots: self.ballots@, claim: self.claim }
    }

    /// Keeps the ballots that the message states too; fails when none is
    /// left.
    open spec fn step(state: BallotSetState, msg: MsgView) -> Option<BallotSetState> {
        let next = state.ballots.intersect(claimed_ballots(state.claim, msg.topic));
        if next == Set::<BallotView>::empty() {
            None
        } else {
            Some(BallotSetState { ballots: next, claim: state.claim })
        }
    }

    fn test(&self, msg: &Msg<V>) -> (r: Option<Self>)
        ensures
            r matches Some(p) ==> p.ballots.wf(),
    {
        let stated = match self.claim {
            Claim::VotesOrAccepts => msg.votes_or_accepts_prepared(),
            Claim::Accepts => msg.accepts_prepared(),
        };
        let next = self.ballots.intersection(&stated);
        if next.is_empty() {
            None
        } else {
            Some(BallotSetPredicate { ballots: next, claim: self.claim })
        }
    }

    fn result(&self) -> (r: BallotSet<V>)
        ensures
            r@ == self.state().ballots,
    {
        self.ballots.duplicate()
    }

    fn duplicate(&self) -> (r: Self) {
        BallotSetPredicate { ballots: self.ballots.duplicate(), claim: self.claim }
    }
}

/// The part of the range `r` for which `stated` holds a ballot: a ballot
/// with the values of `r` stands for every counter up to its own.
pub open spec fn narrowed_range(r: BallotRangeView, stated: Set<BallotView>) -> Option<
    BallotRangeView,
> {
    match highest_of(stated.filter(|c: BallotView| c.x == r.values)) {
        Some(top) => match window(r.min, r.max, 1, top.n) {
            Some((lo, hi)) => Some(BallotRangeView { values: r.values, min: lo, max: hi }),
            None => None,
        },
        None => None,
    }
}

/// The ranges narrowed one by one; those of which nothing is left are
/// dropped.
pub open spec fn narrowed(ranges: Seq<BallotRangeView>, stated: Set<BallotView>) -> Seq<
    BallotRangeView,
>
    decreases ranges.len(),
{
    if ranges.len() == 0 {
        Seq::empty()
    } else {
        let init = narrowed(ranges.drop_last(), stated);
        match narrowed_range(ranges.last(), stated) {
            Some(r) => init.push(r),
            None => init,
        }
    }
}

/// Narrowing keeps the ranges apart: what is left of ranges for different
/// values are ranges for different values, each for the values of a range
/// that was there before.
pub proof fn lemma_narrowed_keeps_distinct(ranges: Seq<BallotRangeView>, stated: Set<BallotView>)
    requires
        distinct_values(ranges),
    ensures
        distinct_values(narrowed(ranges, stated)),
        forall|i: int|
            0 <= i < narrowed(ranges, stated).len() ==> has_values(
                ranges,
                (#[trigger] narrowed(ranges, stated)[i]).values,
            ),
    decreases ranges.len(),
{
    if ranges.len() > 0 {
        let init = ranges.drop_last();
        let last = ranges.last();
        assert forall|i: int, j: int|
            0 <= i < init.len() && 0 <= j < init.len() && i != j implies (#[trigger] init[i]).values
            != (#[trigger] init[j]).values by {
            assert(init[i] == ranges[i] && init[j] == ranges[j]);
        }
        lemma_narrowed_keeps_distinct(init, stated);
        let kept = narrowed(init, stated);
        let all = narrowed(ranges, stated);
        assert forall|i: int| 0 <= i < kept.len() implies has_values(
            ranges,
            (#[trigger] kept[i]).values,
        ) && kept[i].values != last.values by {
            let k = choose|k: int| 0 <= k < init.len() && (#[trigger] init[k]).values == kept[i].values;
            assert(ranges[k].values == kept[i].values);
            assert(ranges[ranges.len() - 1] == last);
        }
        assert(ranges[ranges.len() - 1].values == last.values);
        assert(has_values(ranges, last.values));
        assert forall|i: int| 0 <= i < all.len() implies has_values(
            ranges,
            (#[trigger] all[i]).values,
        ) by {
            if i < kept.len() {
                assert(all[i] == kept[i]);
            }
        }
        assert forall|i: int, j: int|
            0 <= i < all.len() && 0 <= j < all.len() && i != j implies (#[trigger] all[i]).values
            != (#[trigger] all[j]).values by {
            if i < kept.len() {
                assert(all[i] == kept[i]);
            }
            if j < kept.len() {
                assert(all[j] == kept[j]);
            }
        }
    }
}

/// A predicate that narrows down ranges of ballot counters, one range for
/// each list of values.
pub struct BallotRangePredicate<V: Value> {
    /// The ranges still looked for.
    pub ballot_ranges: BallotRanges<V>,
    /// Which statements of a message count.
    pub claim: Claim,
}

/// What a [`BallotRangePredicate`] looks for.
pub struct BallotRangeState {
    pub ranges: Seq<BallotRangeView>,
    pub claim: Claim,
}

/// Narrows one range: [`narrowed_range`].
fn narrow_range<V: Value>(range: &BallotRange<V>, stated: &BallotSet<V>) -> (r: Option<BallotRange<V>>)
    ensures
        match r {
            Some(n) => narrowed_range(range@, stated@) == Some(n@),
            None => narrowed_range(range@, stated@) is None,
        },
{
    let same = stated.with_values(&range.values);
    match highest_ballot(&same) {
        Some(top) => match intersect_windows(range.min, range.max, 1, top.N) {
            Some((lo, hi)) => Some(
                BallotRange { values: replicate_values(&range.values), min: lo, max: hi },
            ),
            None => None,
        },
        None => None,
    }
}

impl<V: Value> Predicate<V> for BallotRangePredicate<V> {
    type State = BallotRangeState;

    type Result = BallotRanges<V>;

    open spec fn state(&self) -> BallotRangeState {
        BallotRangeState { ranges: self.ballot_ranges@, claim: self.claim }
    }

    /// Narrows every range to what the message states as prepared; fails
    /// when nothing is left of any.
    open spec fn step(state: BallotRangeState, msg: MsgView) -> Option<BallotRangeState> {
        let next = narrowed(state.ranges, claimed_ballots(state.claim, msg.topic));
        if next.len() == 0 {
            None
        } else {
            Some(BallotRangeState { ranges: next, claim: state.claim })
        }
    }

    fn test(&self, msg: &Msg<V>) -> (r: Option<Self>)
        ensures
            r matches Some(p) ==> p.ballot_ranges.wf(),
    {
        let stated = match self.claim {
            Claim::VotesOrAccepts => msg.votes_or_accepts_prepared(),
            Claim::Accepts => msg.accepts_prepared(),
        };
        let ghost all = self.ballot_ranges@;
        let n = self.ballot_ranges.len();
        let mut next: Vec<BallotRange<V>> = Vec::new();
        let mut i: usize = 0;
        assert(all.take(0) =~= Seq::<BallotRangeView>::empty());
        assert(ranges_of(next@) =~= narrowed(all.take(0), stated@));
        while i < n
            invariant
                i <= n,
                n == all.len(),
                all == self.ballot_ranges@,
                ranges_of(next@) == narrowed(all.take(i as int), stated@),
            decreases n - i,
        {
            let ghost held = ranges_of(next@);
            proof {
                assert(all.take(i + 1).drop_last() =~= all.take(i as int));
                assert(all.take(i + 1).last() == all[i as int]);
            }
            match narrow_range(self.ballot_ranges.get(i), &stated) {
                Some(r) => {
                    next.push(r);
                    assert(ranges_of(next@) =~= held.push(r@));
                },
                None => {},
            }
            i = i + 1;
        }
        proof {
            assert(all.take(i as int) =~= all);
            lemma_narrowed_keeps_distinct(all, stated@);
        }
        if next.len() == 0 {
            None
        } else {
            Some(
                BallotRangePredicate {
                    ballot_ranges: BallotRanges::from_distinct(next),
                    claim: self.claim,
                },
            )
        }
    }

    fn result(&self) -> (r: BallotRanges<V>)
        ensures
            r@ == self.state().ranges,
    {
        self.ballot_ranges.duplicate()
    }

    fn duplicate(&self) -> (r: Self) {
        BallotRangePredicate { ballot_ranges: self.ballot_ranges.duplicate(), claim: self.claim }
    }
}

/// A predicate that narrows down a set of values.
pub struct ValueSetPredicate<V: Value> {
    /// The values still looked for.
    pub values: ValueSet<V>,
    /// Which statements of a message count.
    pub claim: Claim,
}

/// What a [`ValueSetPredicate`] looks for.
pub struct ValueSetState {
    pub values: Set<Seq<u8>>,
    pub claim: Claim,
}

impl<V: Value> Predicate<V> for ValueSetPredicate<V> {
    type State = ValueSetState;

    type Result = ValueSet<V>;

    open spec fn state(&self) -> ValueSetState {
        ValueSetState { values: self.values@, claim: self.claim }
    }

    /// Keeps the values that the message states too; fails when none is
    /// left.
    open spec fn step(state: ValueSetState, msg: MsgView) -> Option<ValueSetState> {
        let next = state.values.intersect(claimed_values(state.claim, msg.topic));
        if next == Set::<Seq<u8>>::empty() {
            None
        } else {
            Some(ValueSetState { values: next, claim: state.claim })
        }
    }

    fn test(&self, msg: &Msg<V>) -> (r: Option<Self>) {
        let stated = match self.claim {
            Claim::VotesOrAccepts => msg.votes_or_accepts_nominated(),
            Claim::Accepts => msg.accepts_nominated(),
        };
        match stated {
            None => {
                assert(self.values@.intersect(Set::<Seq<u8>>::empty()) =~= Set::<
                    Seq<u8>,
                >::empty());
                None
            },
            Some(s) => {
                let next = self.values.intersection(&s);
                if next.is_empty() {
                    None
                } else {
                    Some(ValueSetPredicate { values: next, claim: self.claim })
                }
            },
        }
    }

    fn result(&self) -> (r: ValueSet<V>)
        ensures
            r@ == self.state().values,
    {
        self.values.duplicate()
    }

    fn duplicate(&self) -> (r: Self) {
        ValueSetPredicate { values: self.values.duplicate(), claim: self.claim }
    }
}

/// Whether a search result with `a_nodes` nodes and the values `a` is not
/// above one with `b_nodes` nodes and the values `b`: fewer nodes, or as
/// many and values that are not above.
pub open spec fn values_result_le(a_nodes: nat, a: Seq<Seq<u8>>, b_nodes: nat, b: Seq<Seq<u8>>) -> bool {
    a_nodes < b_nodes || (a_nodes == b_nodes && (a == b || keys_lt(a, b)))
}

impl<V: Value> ValueSetPredicate<V> {
    /// Of several search results, each a set of nodes with the values they
    /// agree on, the values of the greatest: the one with the most nodes
    /// and, among those, the highest values.
    pub fn filter_to_max_values(results: Vec<(NodeSet, ValueSet<V>)>) -> (r: Option<ValueSet<V>>)
        ensures
            match r {
                None => results.len() == 0,
                Some(v) => exists|i: int|
                    0 <= i < results.len() && v.keys() == (#[trigger] results[i]).1.keys()
                        && forall|j: int|
                        0 <= j < results.len() ==> values_result_le(
                            (#[trigger] results[j]).0.ids().len(),
                            results[j].1.keys(),
                            results[i].0.ids().len(),
                            results[i].1.keys(),
                        ),
            },
    {
        if results.len() == 0 {
            return None;
        }
        let mut best: usize = 0;
        let mut i: usize = 1;
        while i < results.len()
            invariant
                1 <= i <= results.len(),
                best < i,
                forall|j: int|
                    0 <= j < i ==> values_result_le(
                        (#[trigger] results[j]).0.ids().len(),
                        results[j].1.keys(),
                        results[best as int].0.ids().len(),
                        results[best as int].1.keys(),
                    ),
            decreases results.len() - i,
        {
            let n_new = results[i].0.len();
            let n_best = results[best].0.len();
            let higher = if n_new != n_best {
                n_new > n_best
            } else {
                results[i].1.compare(&results[best].1) != Rank::Below
            };
            proof {
                let a = results[i as int].1.keys();
                let b = results[best as int].1.keys();
                lemma_keys_lt_total(a, b);
                if higher {
                    assert forall|j: int| 0 <= j < i + 1 implies values_result_le(
                        (#[trigger] results[j]).0.ids().len(),
                        results[j].1.keys(),
                        results[i as int].0.ids().len(),
                        a,
                    ) by {
                        if j < i {
                            let c = results[j].1.keys();
                            if results[j].0.ids().len() == n_new && c != b && b != a {
                                lemma_keys_lt_transitive(c, b, a);
                            }
                        }
                    }
                }
            }
            if higher {
                best = i;
            }
            i = i + 1;
        }
        Some(results[best].1.duplicate())
    }
}

/// A predicate that narrows down a range of counters for ballots with given
/// values.
pub struct MinMaxPredicate<V: Value> {
    /// The lowest counter still looked for.
    pub min: u32,
    /// The highest counter still looked for.
    pub max: u32,
    /// The values of the ballots.
    pub values: Vec<V>,
    /// Which statements of a message count.
    pub claim: Claim,
}

/// What a [`MinMaxPredicate`] looks for.
pub struct MinMaxState {
    pub min: u32,
    pub max: u32,
    pub values: Seq<Seq<u8>>,
    pub claim: Claim,
}

impl<V: Value> Predicate<V> for MinMaxPredicate<V> {
    type State = MinMaxState;

    type Result = (u32, u32);

    open spec fn state(&self) -> MinMaxState {
        MinMaxState { min: self.min, max: self.max, values: keys_of(self.values@), claim: self.claim }
    }

    /// Keeps the part of the range that the message states too; fails when
    /// the range is empty or the message states none of it.
    open spec fn step(state: MinMaxState, msg: MsgView) -> Option<MinMaxState> {
        if state.min > state.max {
            None
        } else {
            match claimed_commits(state.claim, msg.topic, state.values, state.min, state.max) {
                None => None,
                Some((lo, hi)) => Some(
                    MinMaxState { min: lo, max: hi, values: state.values, claim: state.claim },
                ),
            }
        }
    }

    fn test(&self, msg: &Msg<V>) -> (r: Option<Self>) {
        if self.min > self.max {
            return None;
        }
        let stated = match self.claim {
            Claim::VotesOrAccepts => msg.votes_or_accepts_commits(&self.values, self.min, self.max),
            Claim::Accepts => msg.accepts_commits(&self.values, self.min, self.max),
        };
        match stated {
            None => None,
            Some((lo, hi)) => Some(
                MinMaxPredicate {
                    min: lo,
                    max: hi,
                    values: replicate_values(&self.values),
                    claim: self.claim,
                },
            ),
        }
    }

    fn result(&self) -> (r: (u32, u32))
        ensures
            r == (self.min, self.max),
    {
        (self.min, self.max)
    }

    fn duplicate(&self) -> (r: Self) {
        MinMaxPredicate {
            min: self.min,
            max: self.max,
            values: replicate_values(&self.values),
            claim: self.claim,
        }
    }
}

/// Whether the range `a` is not above the range `b`: a lower upper bound,
/// or the same upper bound and a lower bound that is not higher.
pub open spec fn range_le(a: (u32, u32), b: (u32, u32)) -> bool {
    a.1 < b.1 || (a.1 == b.1 && a.0 <= b.0)
}

impl<V: Value> MinMaxPredicate<V> {
    /// Of several search results, each a set of nodes with the range of
    /// counters they agree on, the highest range.
    pub fn get_highest_ballot(results: Vec<(NodeSet, (u32, u32))>) -> (r: Option<(u32, u32)>)
        ensures
            match r {
                None => results.len() == 0,
                Some(w) => (exists|i: int| 0 <= i < results.len() && w == (#[trigger] results[i]).1)
                    && forall|j: int|
                    0 <= j < results.len() ==> range_le((#[trigger] results[j]).1, w),
            },
    {
        if results.len() == 0 {
            return None;
        }
        let mut best: (u32, u32) = results[0].1;
        let mut i: usize = 1;
        while i < results.len()
            invariant
                1 <= i <= results.len(),
                exists|k: int| 0 <= k < i && best == (#[trigger] results[k]).1,
                forall|j: int| 0 <= j < i ==> range_le((#[trigger] results[j]).1, best),
            decreases results.len() - i,
        {
            let w = results[i].1;
            if w.1 > best.1 || (w.1 == best.1 && w.0 > best.0) {
                best = w;
            }
            i = i + 1;
        }
        Some(best)
    }
}

/// A yes-or-no test on messages.
pub trait MsgTest<V: Value> {
    /// Whether the test holds of `msg`.
    open spec fn holds(&self, msg: MsgView) -> bool {
        arbitrary()
    }

    /// Decides the test.
    fn check(&self, msg: &Msg<V>) -> (b: bool)
        ensures
            b == self.holds(msg@),
    ;
}

/// The counter of the ballot that a topic is about; zero where it is about
/// none yet, and [`INFINITY`] once the sender has externalized.
pub open spec fn ballot_counter(t: TopicView) -> u32 {
    match t {
        TopicView::Nominate(_) => 0,
        TopicView::NominatePrepare(_, p) => p.b.n,
        TopicView::Prepare(p) => p.b.n,
        TopicView::Commit(c) => c.b.n,
        TopicView::Externalize(_) => INFINITY,
    }
}

/// The test that holds of the messages about a ballot with a counter of at
/// least `counter`.
pub struct CounterAtLeast {
    /// The least counter that passes.
    pub counter: u32,
}

impl<V: Value> MsgTest<V> for CounterAtLeast {
    open spec fn holds(&self, msg: MsgView) -> bool {
        ballot_counter(msg.topic) >= self.counter
    }

    fn check(&self, msg: &Msg<V>) -> (b: bool) {
        msg.ballot_counter() >= self.counter
    }
}

impl<V: Value> Msg<V> {
    /// The counter of the ballot that the message is about.
    pub fn ballot_counter(&self) -> (n: u32)
        ensures
            n == ballot_counter(self@.topic),
    {
        match &self.topic {
            crate::msg::Topic::Nominate(_) => 0,
            crate::msg::Topic::NominatePrepare(_, p) => p.B.N,
            crate::msg::Topic::Prepare(p) => p.B.N,
            crate::msg::Topic::Commit(c) => c.B.N,
            crate::msg::Topic::Externalize(_) => INFINITY,
        }
    }
}

/// A predicate that applies one fixed test to every message.
pub struct FuncPredicate<'a, F> {
    /// The test to apply.
    pub test_fn: &'a F,
}

impl<'a, V: Value, F: MsgTest<V>> Predicate<V> for FuncPredicate<'a, F> {
    type State = F;

    type Result = ();

    open spec fn state(&self) -> F {
        *self.test_fn
    }

    /// Stays as it is on the messages that pass the test; fails on the
    /// others.
    open spec fn step(state: F, msg: MsgView) -> Option<F> {
        if state.holds(msg) {
            Some(state)
        } else {
            None
        }
    }

    fn test(&self, msg: &Msg<V>) -> (r: Option<Self>) {
        if self.test_fn.check(msg) {
            Some(FuncPredicate { test_fn: self.test_fn })
        } else {
            None
        }
    }

    fn result(&self) -> (r: ()) {
    }

    fn duplicate(&self) -> (r: Self) {
        FuncPredicate { test_fn: self.test_fn }
    }
}

/// What a message states as prepared is a finite set of ballots.
pub proof fn lemma_claimed_ballots_finite(claim: Claim, t: TopicView)
    ensures
        claimed_ballots(claim, t).finite(),
{
}

/// What is left of a range: something is left exactly where a ballot is
/// stated that has the values of the range and shares a counter with it,
/// counting a ballot for every counter from one up to its own.
pub proof fn lemma_narrowed_range(r: BallotRangeView, stated: Set<BallotView>)
    requires
        stated.finite(),
    ensures
        narrowed_range(r, stated) is Some <==> exists|c: BallotView| #[trigger]
            stated.contains(c) && c.x == r.values && window(r.min, r.max, 1, c.n) is Some,
        narrowed_range(r, stated) matches Some(left) ==> left.values == r.values && r.min
            <= left.min <= left.max <= r.max,
{
    let same = stated.filter(|c: BallotView| c.x == r.values);
    stated.lemma_len_filter(|c: BallotView| c.x == r.values);
    if same.len() > 0 {
        lemma_highest_exists(same);
        let top = highest_of(same)->0;
        assert(stated.contains(top) && top.x == r.values);
        assert forall|c: BallotView| #[trigger]
            stated.contains(c) && c.x == r.values implies c.n <= top.n by {
            assert(same.contains(c));
            assert(ballot_le(c, top));
        }
    } else {
        assert forall|c: BallotView| #[trigger] stated.contains(c) implies c.x != r.values by {
            if c.x == r.values {
                assert(same.contains(c));
            }
        }
        assert(forall|m: BallotView| !is_highest(same, m));
    }
}

} // verus!
