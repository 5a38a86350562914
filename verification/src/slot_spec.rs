//! The rules of one slot, as a function from state to state.
//!
//! A slot votes in four stages. It nominates values until a quorum has
//! accepted some; it prepares a ballot carrying the confirmed nominees; it
//! commits the ballot once it is confirmed prepared; and it externalizes the
//! ballot's values once the commit is confirmed. A statement is *accepted*
//! when a quorum votes for it or accepts it, or when a blocking set accepts
//! it; it is *confirmed* when a quorum accepts it.

use crate::ballot::{ballot_lt, covers, highest_of, BallotView, INFINITY};
use crate::callbacks::{CombineFn, ValidityFn};
use crate::msg::{
    CommitView, ExternalizeView, MsgView, NominateView, PrepareView, TopicView,
};
use crate::node_id::NodeIdView;
use crate::ballot_ranges::BallotRangeView;
use crate::predicates::{
    ballot_counter, claimed_ballots, claimed_values, lemma_claimed_ballots_finite,
    lemma_narrowed_range, narrowed, narrowed_range, BallotRangePredicate, BallotRangeState, Claim,
    CounterAtLeast, FuncPredicate, MinMaxPredicate, MinMaxState, Predicate, ValueSetPredicate,
    ValueSetState,
};
use crate::quorum_search::{
    avoids, blocking_need, find_blocking_set, find_quorum, lemma_no_blocking_set_without_messages,
    lemma_no_quorum_without_messages, members_valid,
};
use crate::quorum_set::{valid_quorum_set, QuorumSetView};
use crate::statements::{
    add_nonzero, ballot_at, not_older, option_le, supersedes, votes_or_accepts_prepared,
};
use crate::value::Value;
use crate::value_set::sorted_keys;
use vstd::prelude::*;

verus! {

/// The stage a slot is in.
#[derive(Clone, Copy, Debug, PartialEq, Eq, Structural)]
pub enum Phase {
    /// Nominating; no ballot yet.
    Nominate,
    /// Preparing a first ballot while nomination goes on.
    NominatePrepare,
    /// Preparing; some ballot is confirmed prepared.
    Prepare,
    /// Some range of ballots is accepted as committed.
    Commit,
    /// Some range of ballots is confirmed as committed.
    Externalize,
}

/// How far a phase is along the way.
pub open spec fn phase_rank(p: Phase) -> nat {
    match p {
        Phase::Nominate => 0,
        Phase::NominatePrepare => 1,
        Phase::Prepare => 2,
        Phase::Commit => 3,
        Phase::Externalize => 4,
    }
}

/// The mathematical content of a slot.
pub struct SlotView {
    pub slot_index: u64,
    pub node_id: NodeIdView,
    pub quorum_set: QuorumSetView,
    /// The latest message of each peer.
    pub msgs: Map<NodeIdView, MsgView>,
    pub phase: Phase,
    /// Values voted as nominated.
    pub x: Set<Seq<u8>>,
    /// Values accepted as nominated.
    pub y: Set<Seq<u8>>,
    /// Values confirmed as nominated.
    pub z: Set<Seq<u8>>,
    /// The current ballot; counter zero while there is none.
    pub b: BallotView,
    /// The highest ballot accepted as prepared.
    pub p: Option<BallotView>,
    /// The highest accepted-prepared ballot with other values than `p`.
    pub pp: Option<BallotView>,
    /// The commit range: voted while preparing, accepted in the commit
    /// phase, confirmed once externalized.
    pub cn: u32,
    pub hn: u32,
    /// The highest counter accepted as prepared for the ballot's values.
    pub pn: u32,
    /// The last message emitted.
    pub last_sent: Option<MsgView>,
    /// How often the nominate timer has fired.
    pub nominate_round: u32,
    /// When the nominate timer fires next, once it runs.
    pub nominate_deadline: Option<u64>,
    /// When the ballot timer fires next, once it runs.
    pub ballot_deadline: Option<u64>,
    /// The ballot counter for which the ballot timer runs.
    pub ballot_timer_counter: u32,
    /// The base interval of both timers, in milliseconds.
    pub base_interval: u64,
}

/// The set with the one member `k`.
pub open spec fn only<T>(k: T) -> Set<T> {
    Set::<T>::empty().insert(k)
}

/// `set` with `b` added, if there is one.
pub open spec fn add_option(set: Set<BallotView>, b: Option<BallotView>) -> Set<BallotView> {
    match b {
        Some(b) => set.insert(b),
        None => set,
    }
}

/// Whether a quorum of `s` states the value `k` under `claim`, the slot's
/// own node not asked.
pub open spec fn quorum_states_value<V: Value>(s: SlotView, k: Seq<u8>, claim: Claim) -> bool {
    find_quorum::<V, ValueSetPredicate<V>>(
        s.quorum_set,
        s.node_id,
        s.msgs,
        ValueSetState { values: only(k), claim },
    ) is Some
}

/// Whether a set of peers that blocks `s` states the value `k` under `claim`.
pub open spec fn blocking_states_value<V: Value>(s: SlotView, k: Seq<u8>, claim: Claim) -> bool {
    match find_blocking_set::<V, ValueSetPredicate<V>>(
        s.quorum_set,
        s.msgs,
        ValueSetState { values: only(k), claim },
    ) {
        Some((nodes, _)) => nodes != Set::<NodeIdView>::empty(),
        None => false,
    }
}

/// What a search looks for that asks for the one ballot `b`: the values of
/// `b` at the counter of `b`. A statement about a ballot names every counter
/// up to its own, so a message that states a ballot with the values of `b`
/// and a counter at least as high states `b` too.
pub open spec fn one_ballot(b: BallotView, claim: Claim) -> BallotRangeState {
    BallotRangeState {
        ranges: seq![BallotRangeView { values: b.x, min: b.n, max: b.n }],
        claim,
    }
}

/// Whether a quorum of `s` states the ballot `b` as prepared under `claim`,
/// the slot's own node not asked.
pub open spec fn quorum_states_ballot<V: Value>(s: SlotView, b: BallotView, claim: Claim) -> bool {
    find_quorum::<V, BallotRangePredicate<V>>(
        s.quorum_set,
        s.node_id,
        s.msgs,
        one_ballot(b, claim),
    ) is Some
}

/// Whether a set of peers that blocks `s` states the ballot `b` as prepared
/// under `claim`.
pub open spec fn blocking_states_ballot<V: Value>(s: SlotView, b: BallotView, claim: Claim) -> bool {
    match find_blocking_set::<V, BallotRangePredicate<V>>(
        s.quorum_set,
        s.msgs,
        one_ballot(b, claim),
    ) {
        Some((nodes, _)) => nodes != Set::<NodeIdView>::empty(),
        None => false,
    }
}

/// The range of counters within `[min, max]` that a quorum of `s` states as
/// committed for the slot's ballot values under `claim`.
pub open spec fn quorum_commits<V: Value>(s: SlotView, min: u32, max: u32, claim: Claim) -> Option<
    (u32, u32),
> {
    match find_quorum::<V, MinMaxPredicate<V>>(
        s.quorum_set,
        s.node_id,
        s.msgs,
        MinMaxState { min, max, values: s.b.x, claim },
    ) {
        Some((_, st)) => Some((st.min, st.max)),
        None => None,
    }
}

/// The range of counters that a set of peers that blocks `s` accepts as
/// committed for the slot's ballot values.
pub open spec fn blocking_commits<V: Value>(s: SlotView) -> Option<(u32, u32)> {
    match find_blocking_set::<V, MinMaxPredicate<V>>(
        s.quorum_set,
        s.msgs,
        MinMaxState { min: 1, max: INFINITY, values: s.b.x, claim: Claim::Accepts },
    ) {
        Some((nodes, st)) => if nodes != Set::<NodeIdView>::empty() {
            Some((st.min, st.max))
        } else {
            None
        },
        None => None,
    }
}

/// Whether a set of peers that blocks `s` is at a ballot counter of at
/// least `c`.
pub open spec fn blocked_at<V: Value>(s: SlotView, c: u32) -> bool {
    match find_blocking_set::<V, FuncPredicate<CounterAtLeast>>(
        s.quorum_set,
        s.msgs,
        CounterAtLeast { counter: c },
    ) {
        Some((nodes, _)) => nodes != Set::<NodeIdView>::empty(),
        None => false,
    }
}

/// The values that some peer votes to nominate or accepts as nominated.
pub open spec fn peer_values(msgs: Map<NodeIdView, MsgView>) -> Set<Seq<u8>> {
    Set::new(
        |k: Seq<u8>|
            exists|id: NodeIdView| #[trigger]
                msgs.contains_key(id) && claimed_values(
                    Claim::VotesOrAccepts,
                    msgs[id].topic,
                ).contains(k),
    )
}

/// The ballots that some peer votes to prepare or accepts as prepared.
pub open spec fn peer_ballots(msgs: Map<NodeIdView, MsgView>) -> Set<BallotView> {
    Set::new(
        |b: BallotView|
            exists|id: NodeIdView| #[trigger]
                msgs.contains_key(id) && votes_or_accepts_prepared(msgs[id].topic).contains(b),
    )
}

/// The ballot counters that the peers are at.
pub open spec fn peer_counters(msgs: Map<NodeIdView, MsgView>) -> Set<u32> {
    Set::new(
        |c: u32|
            exists|id: NodeIdView| #[trigger]
                msgs.contains_key(id) && ballot_counter(msgs[id].topic) == c,
    )
}

/// The valid ones among `values`.
pub open spec fn valid_among<V: Value, F: ValidityFn<V>>(values: Set<Seq<u8>>, validity: F) -> Set<
    Seq<u8>,
> {
    values.filter(|k: Seq<u8>| validity.valid(k))
}

/// Voting: as long as no nominee is confirmed, the slot votes for every
/// valid value that a peer nominates and that it has not accepted yet.
pub open spec fn vote_nominees<V: Value, F: ValidityFn<V>>(s: SlotView, validity: F) -> SlotView {
    if s.z == Set::<Seq<u8>>::empty() {
        SlotView {
            x: s.x.union(valid_among::<V, F>(peer_values(s.msgs), validity).difference(s.y)),
            ..s
        }
    } else {
        s
    }
}

/// Whether `s` accepts the value `k` as nominated: a blocking set accepts
/// it, or the slot votes for it and a quorum votes for it or accepts it.
pub open spec fn accepts_nominee<V: Value>(s: SlotView, k: Seq<u8>) -> bool {
    blocking_states_value::<V>(s, k, Claim::Accepts) || (s.x.contains(k) && quorum_states_value::<
        V,
    >(s, k, Claim::VotesOrAccepts))
}

/// Accepting: every valid value that the slot or a peer nominates and that
/// `s` accepts moves into the accepted set, and out of the votes.
pub open spec fn accept_nominees<V: Value, F: ValidityFn<V>>(s: SlotView, validity: F) -> SlotView {
    let candidates = s.x.union(valid_among::<V, F>(peer_values(s.msgs), validity));
    let y = s.y.union(candidates.filter(|k: Seq<u8>| accepts_nominee::<V>(s, k)));
    SlotView { x: s.x.difference(y), y, ..s }
}

/// Confirming: every accepted value that a quorum accepts is confirmed.
pub open spec fn confirm_nominees<V: Value>(s: SlotView) -> SlotView {
    SlotView {
        z: s.z.union(s.y.filter(|k: Seq<u8>| quorum_states_value::<V>(s, k, Claim::Accepts))),
        ..s
    }
}

/// The nomination rules, one after the other.
pub open spec fn nominate<V: Value, F: ValidityFn<V>>(s: SlotView, validity: F) -> SlotView {
    confirm_nominees::<V>(accept_nominees::<V, F>(vote_nominees::<V, F>(s, validity), validity))
}

/// The values of a ballot made from the confirmed nominees.
pub open spec fn combined_values<V: Value, C: CombineFn<V>>(s: SlotView, combine: C) -> Seq<Seq<u8>> {
    sorted_keys(combine.combined(s.z))
}

/// The first ballot: counter one, with the combination of the confirmed
/// nominees, as soon as there is one.
pub open spec fn start_ballot<V: Value, C: CombineFn<V>>(s: SlotView, combine: C) -> SlotView {
    if s.b.n == 0 && s.z != Set::<Seq<u8>>::empty() {
        SlotView { b: ballot_at(1, combined_values::<V, C>(s, combine)), ..s }
    } else {
        s
    }
}

/// `m` is `floor`, or a member of `set` above it, and no member of `set` is
/// above `m`.
pub open spec fn is_top(set: Set<u32>, floor: u32, m: u32) -> bool {
    &&& m >= floor
    &&& m == floor || set.contains(m)
    &&& forall|c: u32| #[trigger] set.contains(c) ==> c <= m
}

/// The highest of `floor` and the members of `set`.
pub open spec fn top_of(set: Set<u32>, floor: u32) -> u32 {
    if exists|m: u32| is_top(set, floor, m) {
        choose|m: u32| is_top(set, floor, m)
    } else {
        floor
    }
}

/// The counters above the slot's own at which a blocking set of peers is.
pub open spec fn counters_ahead<V: Value>(s: SlotView) -> Set<u32> {
    peer_counters(s.msgs).filter(|c: u32| s.b.n < c && c < INFINITY && blocked_at::<V>(s, c))
}

/// Catching up: a slot with a ballot raises its counter to the highest at
/// which a blocking set of peers is.
pub open spec fn catch_up<V: Value>(s: SlotView) -> SlotView {
    if s.b.n > 0 {
        SlotView { b: ballot_at(top_of(counters_ahead::<V>(s), s.b.n), s.b.x), ..s }
    } else {
        s
    }
}

/// The ballots the slot itself votes to prepare or accepts as prepared.
pub open spec fn own_ballots(s: SlotView) -> Set<BallotView> {
    add_option(add_option(add_nonzero(Set::empty(), s.b), s.p), s.pp)
}

/// Whether `s` accepts the ballot `b` as prepared: a blocking set accepts
/// it, or the slot states it and a quorum votes for it or accepts it.
pub open spec fn accepts_ballot<V: Value>(s: SlotView, b: BallotView) -> bool {
    blocking_states_ballot::<V>(s, b, Claim::Accepts) || (covers(own_ballots(s), b)
        && quorum_states_ballot::<V>(s, b, Claim::VotesOrAccepts))
}

/// The ballots accepted as prepared: those already held as such, and those
/// of the slot and its peers that `s` accepts.
pub open spec fn accepted_ballots<V: Value>(s: SlotView) -> Set<BallotView> {
    add_option(
        add_option(
            add_nonzero(peer_ballots(s.msgs), s.b).filter(|b: BallotView| accepts_ballot::<V>(s, b)),
            s.p,
        ),
        s.pp,
    )
}

/// The members of `set` with other values than `b`.
pub open spec fn incompatible_with(set: Set<BallotView>, b: BallotView) -> Set<BallotView> {
    set.filter(|c: BallotView| c.x != b.x)
}

/// Accepting as prepared: `p` becomes the highest accepted ballot, `pp` the
/// highest with other values.
pub open spec fn accept_prepared<V: Value>(s: SlotView) -> SlotView {
    let accepted = accepted_ballots::<V>(s);
    let p = highest_of(accepted);
    let pp = match p {
        Some(top) => highest_of(incompatible_with(accepted, top)),
        None => None,
    };
    SlotView { p, pp, ..s }
}

/// Switching: a slot that does not vote to commit yet takes over the values
/// of a higher ballot that it accepts as prepared, at that ballot's counter.
pub open spec fn switch_ballot(s: SlotView) -> SlotView {
    match s.p {
        Some(p) => if s.cn == 0 && s.hn == 0 && p.x != s.b.x && ballot_lt(s.b, p) {
            let n = if p.n != INFINITY {
                p.n
            } else if s.b.n == 0 {
                1
            } else {
                s.b.n
            };
            SlotView { b: ballot_at(n, p.x), ..s }
        } else {
            s
        },
        None => s,
    }
}

/// Confirming as prepared: once the slot accepts its ballot as prepared and
/// a quorum does too, the slot votes to commit it.
pub open spec fn confirm_prepared<V: Value>(s: SlotView) -> SlotView {
    if s.b.n > 0 && covers(add_option(add_option(Set::empty(), s.p), s.pp), s.b)
        && quorum_states_ballot::<V>(s, s.b, Claim::Accepts) {
        SlotView {
            cn: if s.cn == 0 {
                s.b.n
            } else {
                s.cn
            },
            hn: if s.hn < s.b.n {
                s.b.n
            } else {
                s.hn
            },
            ..s
        }
    } else {
        s
    }
}

/// The phase of a slot that has not accepted a commit, from what it holds.
pub open spec fn settle_phase(s: SlotView) -> SlotView {
    match s.phase {
        Phase::Commit => s,
        Phase::Externalize => s,
        _ => SlotView {
            phase: if s.b.n == 0 {
                Phase::Nominate
            } else if s.hn == 0 {
                Phase::NominatePrepare
            } else {
                Phase::Prepare
            },
            ..s
        },
    }
}

/// The highest counter accepted as prepared for the ballot's values.
pub open spec fn raise_pn(s: SlotView) -> SlotView {
    match s.p {
        Some(p) => if p.x == s.b.x && p.n > s.pn {
            SlotView { pn: p.n, ..s }
        } else {
            s
        },
        None => s,
    }
}

/// The range that `s` accepts as committed for its ballot's values: what a
/// quorum votes for or accepts of the range the slot votes for, or else what
/// a blocking set accepts.
pub open spec fn accepted_range<V: Value>(s: SlotView) -> Option<(u32, u32)> {
    let by_quorum = if s.cn > 0 {
        quorum_commits::<V>(s, s.cn, s.hn, Claim::VotesOrAccepts)
    } else {
        None
    };
    match by_quorum {
        Some(w) => Some(w),
        None => blocking_commits::<V>(s),
    }
}

/// Accepting a commit: a slot with a ballot enters the commit phase with the
/// accepted range.
pub open spec fn accept_commit<V: Value>(s: SlotView) -> SlotView {
    if s.b.n > 0 {
        match accepted_range::<V>(s) {
            Some((lo, hi)) => raise_pn(SlotView { phase: Phase::Commit, cn: lo, hn: hi, ..s }),
            None => s,
        }
    } else {
        s
    }
}

/// The rules of the prepare stage, one after the other.
pub open spec fn prepare<V: Value, C: CombineFn<V>>(s: SlotView, combine: C) -> SlotView {
    accept_commit::<V>(
        settle_phase(
            confirm_prepared::<V>(
                switch_ballot(accept_prepared::<V>(catch_up::<V>(start_ballot::<V, C>(s, combine)))),
            ),
        ),
    )
}

/// Confirming a commit: once a quorum accepts part of the accepted range,
/// that part is final.
pub open spec fn confirm_commit<V: Value>(s: SlotView) -> SlotView {
    match quorum_commits::<V>(s, s.cn, s.hn, Claim::Accepts) {
        Some((lo, hi)) => SlotView { phase: Phase::Externalize, cn: lo, hn: hi, ..s },
        None => s,
    }
}

/// After externalizing: once a quorum has externalized the same values,
/// every higher ballot with them is confirmed prepared too.
pub open spec fn raise_externalized<V: Value>(s: SlotView) -> SlotView {
    if quorum_states_ballot::<V>(s, ballot_at(INFINITY, s.b.x), Claim::Accepts) {
        SlotView { hn: INFINITY, ..s }
    } else {
        s
    }
}

/// All the rules, in the order of the stages, once each.
pub open spec fn advance<V: Value, F: ValidityFn<V>, C: CombineFn<V>>(
    s: SlotView,
    validity: F,
    combine: C,
) -> SlotView {
    let s1 = match s.phase {
        Phase::Nominate => nominate::<V, F>(s, validity),
        Phase::NominatePrepare => nominate::<V, F>(s, validity),
        _ => s,
    };
    let s2 = match s1.phase {
        Phase::Commit => raise_pn(accept_prepared::<V>(catch_up::<V>(s1))),
        Phase::Externalize => s1,
        _ => prepare::<V, C>(s1, combine),
    };
    let s3 = match s2.phase {
        Phase::Commit => confirm_commit::<V>(s2),
        _ => s2,
    };
    match s3.phase {
        Phase::Externalize => raise_externalized::<V>(s3),
        _ => s3,
    }
}

/// What the slot states in its present state; nothing while it has nothing
/// to nominate.
pub open spec fn statement(s: SlotView) -> Option<TopicView> {
    let nominate = NominateView { x: s.x, y: s.y };
    let prepare = PrepareView { b: s.b, p: s.p, pp: s.pp, cn: s.cn, hn: s.hn };
    match s.phase {
        Phase::Nominate => if s.x.union(s.y) == Set::<Seq<u8>>::empty() {
            None
        } else {
            Some(TopicView::Nominate(nominate))
        },
        Phase::NominatePrepare => Some(TopicView::NominatePrepare(nominate, prepare)),
        Phase::Prepare => Some(TopicView::Prepare(prepare)),
        Phase::Commit => Some(TopicView::Commit(CommitView { b: s.b, pn: s.pn, cn: s.cn, hn: s.hn })),
        Phase::Externalize => Some(
            TopicView::Externalize(ExternalizeView { c: ballot_at(s.cn, s.b.x), hn: s.hn }),
        ),
    }
}

/// The message that carries the slot's statement.
pub open spec fn out_msg(s: SlotView) -> Option<MsgView> {
    match statement(s) {
        Some(topic) => Some(
            MsgView {
                sender_id: s.node_id,
                quorum_set: s.quorum_set,
                slot_index: s.slot_index,
                topic,
            },
        ),
        None => None,
    }
}

/// Emitting: the slot's statement goes out if it is not what went out last.
pub open spec fn emit(s: SlotView) -> (SlotView, Option<MsgView>) {
    match out_msg(s) {
        Some(m) => if s.last_sent == Some(m) {
            (s, None)
        } else {
            (SlotView { last_sent: Some(m), ..s }, Some(m))
        },
        None => (s, None),
    }
}

/// Whether the slot takes in `m`: it comes from another node, is about this
/// slot, and replaces what the sender said before.
pub open spec fn admits(s: SlotView, m: MsgView) -> bool {
    &&& m.sender_id != s.node_id
    &&& m.slot_index == s.slot_index
    &&& s.msgs.contains_key(m.sender_id) ==> supersedes(m.topic, s.msgs[m.sender_id].topic)
}

/// Handling a message: if the slot takes it in, it becomes the sender's
/// latest, the rules are applied, and the new statement is emitted.
pub open spec fn handle<V: Value, F: ValidityFn<V>, C: CombineFn<V>>(
    s: SlotView,
    m: MsgView,
    validity: F,
    combine: C,
) -> (SlotView, Option<MsgView>) {
    if admits(s, m) {
        emit(advance::<V, F, C>(SlotView { msgs: s.msgs.insert(m.sender_id, m), ..s }, validity, combine))
    } else {
        (s, None)
    }
}

/// Proposing values: while the slot nominates and has confirmed no nominee,
/// it votes for the valid ones among `values`; then the rules are applied
/// and the new statement is emitted.
pub open spec fn propose<V: Value, F: ValidityFn<V>, C: CombineFn<V>>(
    s: SlotView,
    values: Set<Seq<u8>>,
    validity: F,
    combine: C,
) -> (SlotView, Option<MsgView>) {
    let open = (s.phase == Phase::Nominate || s.phase == Phase::NominatePrepare) && s.z == Set::<
        Seq<u8>,
    >::empty();
    let s1 = if open {
        SlotView { x: s.x.union(valid_among::<V, F>(values, validity).difference(s.y)), ..s }
    } else {
        s
    };
    emit(advance::<V, F, C>(s1, validity, combine))
}

/// When a timer set at `now` for the counter `n` fires: after the base
/// interval times one more than the counter, or never if that is beyond
/// what the clock can show.
pub open spec fn deadline_after(now: u64, base: u64, n: u32) -> u64 {
    let d = now + base * (n + 1);
    if d > u64::MAX {
        u64::MAX
    } else {
        d as u64
    }
}

/// Sending once more: the slot's statement goes out whether or not it is
/// what went out last.
pub open spec fn resend(s: SlotView) -> (SlotView, Option<MsgView>) {
    match out_msg(s) {
        Some(m) => (SlotView { last_sent: Some(m), ..s }, Some(m)),
        None => (s, None),
    }
}

/// The nominate timer at the time `now`. It runs while the slot nominates
/// and has something to nominate: the first look starts it, and when it
/// fires the round goes up and the statement is sent once more.
pub open spec fn nominate_tick(s: SlotView, now: u64) -> (SlotView, Option<MsgView>) {
    if s.x.union(s.y) == Set::<Seq<u8>>::empty() {
        (s, None)
    } else {
        match s.nominate_deadline {
            None => (
                SlotView {
                    nominate_deadline: Some(deadline_after(now, s.base_interval, s.nominate_round)),
                    ..s
                },
                None,
            ),
            Some(d) => if now >= d && s.nominate_round < INFINITY {
                let round = (s.nominate_round + 1) as u32;
                resend(
                    SlotView {
                        nominate_round: round,
                        nominate_deadline: Some(deadline_after(now, s.base_interval, round)),
                        ..s
                    },
                )
            } else {
                (s, None)
            },
        }
    }
}

/// The ballot timer at the time `now`. It runs while the slot prepares or
/// commits: a look at a counter for which it does not run starts it, and when
/// it fires the counter goes up by one, a slot that has not confirmed a
/// ballot as prepared takes the combination of its confirmed nominees as the
/// ballot's values, the rules are applied and the new statement is emitted.
pub open spec fn ballot_tick<V: Value, F: ValidityFn<V>, C: CombineFn<V>>(
    s: SlotView,
    now: u64,
    validity: F,
    combine: C,
) -> (SlotView, Option<MsgView>) {
    if s.ballot_deadline is None || s.ballot_timer_counter != s.b.n {
        (
            SlotView {
                ballot_deadline: Some(deadline_after(now, s.base_interval, s.b.n)),
                ballot_timer_counter: s.b.n,
                ..s
            },
            None,
        )
    } else if now >= s.ballot_deadline->0 && s.b.n < INFINITY - 1 {
        let n = (s.b.n + 1) as u32;
        let x = if s.phase == Phase::NominatePrepare {
            combined_values::<V, C>(s, combine)
        } else {
            s.b.x
        };
        emit(
            advance::<V, F, C>(
                SlotView {
                    b: ballot_at(n, x),
                    ballot_deadline: Some(deadline_after(now, s.base_interval, n)),
                    ballot_timer_counter: n,
                    ..s
                },
                validity,
                combine,
            ),
        )
    } else {
        (s, None)
    }
}

/// The timers at the time `now`.
pub open spec fn tick<V: Value, F: ValidityFn<V>, C: CombineFn<V>>(
    s: SlotView,
    now: u64,
    validity: F,
    combine: C,
) -> (SlotView, Option<MsgView>) {
    match s.phase {
        Phase::Nominate => nominate_tick(s, now),
        Phase::Externalize => (s, None),
        _ => ballot_tick::<V, F, C>(s, now, validity, combine),
    }
}

/// The phase agrees with what the slot holds: no ballot while nominating, a
/// ballot and nothing confirmed prepared in the overlap, something confirmed
/// prepared while preparing.
pub open spec fn consistent(s: SlotView) -> bool {
    match s.phase {
        Phase::Nominate => s.b.n == 0,
        Phase::NominatePrepare => s.b.n > 0 && s.hn == 0,
        Phase::Prepare => s.b.n > 0 && s.hn > 0,
        _ => true,
    }
}

/// Whether the step from `old` to `new` enters the commit phase or the
/// last phase. Such a step sets the commit range anew: to the range accepted
/// as committed, or to the range confirmed.
pub open spec fn sets_range_anew(old: SlotView, new: SlotView) -> bool {
    new.phase != old.phase && (new.phase == Phase::Commit || new.phase == Phase::Externalize)
}

/// From `old` to `new` nothing went back: not the phase, not the ballot
/// counter, not the highest ballot accepted as prepared, and neither end of
/// the commit range. The one exception is the commit range on a step that
/// enters the commit phase or the last phase: there the range is set anew,
/// to what the slot's quorum or a blocking set states, and either end may
/// be lower than what the slot voted for before.
pub open spec fn progresses(old: SlotView, new: SlotView) -> bool {
    &&& phase_rank(new.phase) >= phase_rank(old.phase)
    &&& new.b.n >= old.b.n
    &&& option_le(old.p, new.p)
    &&& !sets_range_anew(old, new) ==> new.cn >= old.cn && new.hn >= old.hn
}

/// The timers are as they were.
pub open spec fn same_timers(old: SlotView, new: SlotView) -> bool {
    &&& new.nominate_round == old.nominate_round
    &&& new.nominate_deadline == old.nominate_deadline
    &&& new.ballot_deadline == old.ballot_deadline
    &&& new.ballot_timer_counter == old.ballot_timer_counter
}

/// `new` is a state of the slot that `old` is a state of: the same number,
/// node, quorum set and base interval.
pub open spec fn same_slot(old: SlotView, new: SlotView) -> bool {
    &&& new.slot_index == old.slot_index
    &&& new.node_id == old.node_id
    &&& new.quorum_set == old.quorum_set
    &&& new.base_interval == old.base_interval
}

/// From `old` to `new` no peer's latest message was lost or replaced by an
/// older one.
pub open spec fn keeps_messages(old: SlotView, new: SlotView) -> bool {
    forall|id: NodeIdView| #[trigger]
        old.msgs.contains_key(id) ==> new.msgs.contains_key(id) && not_older(
            new.msgs[id].topic,
            old.msgs[id].topic,
        )
}

/// Whether the step from `old` to `new` externalized a value that the
/// application holds invalid.
pub open spec fn externalized_invalid<V: Value, F: ValidityFn<V>>(
    old: SlotView,
    new: SlotView,
    validity: F,
) -> bool {
    old.phase != Phase::Externalize && new.phase == Phase::Externalize && exists|i: int|
        0 <= i < new.b.x.len() && !validity.valid(#[trigger] new.b.x[i])
}

/// The rules change neither the slot's identity nor what the peers said.
pub proof fn lemma_advance_keeps<V: Value, F: ValidityFn<V>, C: CombineFn<V>>(
    s: SlotView,
    validity: F,
    combine: C,
)
    ensures
        same_slot(s, advance::<V, F, C>(s, validity, combine)),
        advance::<V, F, C>(s, validity, combine).msgs == s.msgs,
        advance::<V, F, C>(s, validity, combine).last_sent == s.last_sent,
{
    let s1 = match s.phase {
        Phase::Nominate => nominate::<V, F>(s, validity),
        Phase::NominatePrepare => nominate::<V, F>(s, validity),
        _ => s,
    };
    assert(same_slot(s, s1) && s1.msgs == s.msgs && s1.last_sent == s.last_sent);
    let a = start_ballot::<V, C>(s1, combine);
    let b = catch_up::<V>(a);
    let c = accept_prepared::<V>(b);
    let d = switch_ballot(c);
    let e = confirm_prepared::<V>(d);
    let f = settle_phase(e);
    let g = accept_commit::<V>(f);
    assert(same_slot(s, c) && c.msgs == s.msgs && c.last_sent == s.last_sent);
    assert(same_slot(s, g) && g.msgs == s.msgs && g.last_sent == s.last_sent);
    let h = raise_pn(accept_prepared::<V>(catch_up::<V>(s1)));
    assert(same_slot(s, h) && h.msgs == s.msgs && h.last_sent == s.last_sent);
}

/// Handling the same message twice in a row: the second time nothing
/// changes and nothing is emitted.
pub proof fn lemma_handle_twice<V: Value, F: ValidityFn<V>, C: CombineFn<V>>(
    s: SlotView,
    m: MsgView,
    validity: F,
    combine: C,
)
    ensures
        handle::<V, F, C>(handle::<V, F, C>(s, m, validity, combine).0, m, validity, combine) == (
            handle::<V, F, C>(s, m, validity, combine).0,
            None::<MsgView>,
        ),
{
    if admits(s, m) {
        let taken = SlotView { msgs: s.msgs.insert(m.sender_id, m), ..s };
        lemma_advance_keeps::<V, F, C>(taken, validity, combine);
        let s1 = handle::<V, F, C>(s, m, validity, combine).0;
        assert(s1.msgs == taken.msgs);
        assert(s1.msgs[m.sender_id] == m);
        assert(!admits(s1, m));
    }
}

/// A message that the slot takes in is not older than the one it replaces,
/// and the latest messages of the other peers stay.
pub proof fn lemma_handle_keeps_messages<V: Value, F: ValidityFn<V>, C: CombineFn<V>>(
    s: SlotView,
    m: MsgView,
    validity: F,
    combine: C,
)
    ensures
        keeps_messages(s, handle::<V, F, C>(s, m, validity, combine).0),
{
    let s1 = handle::<V, F, C>(s, m, validity, combine).0;
    if admits(s, m) {
        let taken = SlotView { msgs: s.msgs.insert(m.sender_id, m), ..s };
        lemma_advance_keeps::<V, F, C>(taken, validity, combine);
        assert(s1.msgs == taken.msgs);
    }
    assert forall|id: NodeIdView| #[trigger] s.msgs.contains_key(id) implies s1.msgs.contains_key(
        id,
    ) && not_older(s1.msgs[id].topic, s.msgs[id].topic) by {
        crate::statements::lemma_not_older_reflexive(s.msgs[id].topic);
    }
}

/// Nothing going back is kept up over several steps.
pub proof fn lemma_progresses_transitive(a: SlotView, b: SlotView, c: SlotView)
    requires
        progresses(a, b),
        progresses(b, c),
    ensures
        progresses(a, c),
{
    crate::statements::lemma_option_le_transitive(a.p, b.p, c.p);
}

/// What a slot has externalized is final: whatever it handles afterwards,
/// it stays in the last phase with the same values and the same lowest
/// counter, and the highest counter does not go down.
pub proof fn lemma_externalized_is_final<V: Value, F: ValidityFn<V>, C: CombineFn<V>>(
    s: SlotView,
    m: MsgView,
    validity: F,
    combine: C,
)
    requires
        s.phase == Phase::Externalize,
    ensures
        handle::<V, F, C>(s, m, validity, combine).0.phase == Phase::Externalize,
        handle::<V, F, C>(s, m, validity, combine).0.b == s.b,
        handle::<V, F, C>(s, m, validity, combine).0.cn == s.cn,
        handle::<V, F, C>(s, m, validity, combine).0.hn >= s.hn,
{
}

/// Every value that the slot votes for, accepts or has confirmed as
/// nominated is valid.
pub open spec fn nominees_valid<V: Value, F: ValidityFn<V>>(s: SlotView, validity: F) -> bool {
    &&& forall|k: Seq<u8>| #[trigger] s.x.contains(k) ==> validity.valid(k)
    &&& forall|k: Seq<u8>| #[trigger] s.y.contains(k) ==> validity.valid(k)
    &&& forall|k: Seq<u8>| #[trigger] s.z.contains(k) ==> validity.valid(k)
}

/// Invalid values never get into a nomination: the rules keep the nominees
/// valid, whatever the peers nominate.
pub proof fn lemma_advance_keeps_nominees_valid<V: Value, F: ValidityFn<V>, C: CombineFn<V>>(
    s: SlotView,
    validity: F,
    combine: C,
)
    requires
        nominees_valid::<V, F>(s, validity),
    ensures
        nominees_valid::<V, F>(advance::<V, F, C>(s, validity, combine), validity),
{
    let v = vote_nominees::<V, F>(s, validity);
    let a = accept_nominees::<V, F>(v, validity);
    let c = confirm_nominees::<V>(a);
    assert(nominees_valid::<V, F>(v, validity));
    assert(nominees_valid::<V, F>(a, validity));
    assert(nominees_valid::<V, F>(c, validity));
    let s1 = match s.phase {
        Phase::Nominate => nominate::<V, F>(s, validity),
        Phase::NominatePrepare => nominate::<V, F>(s, validity),
        _ => s,
    };
    let kept = |t: SlotView| t.x == s1.x && t.y == s1.y && t.z == s1.z;
    let p = start_ballot::<V, C>(s1, combine);
    let q = catch_up::<V>(p);
    let r = accept_prepared::<V>(q);
    let t = switch_ballot(r);
    let u = confirm_prepared::<V>(t);
    let w = settle_phase(u);
    let g = accept_commit::<V>(w);
    assert(kept(r));
    assert(kept(g));
    let h = raise_pn(accept_prepared::<V>(catch_up::<V>(s1)));
    assert(kept(h));
}

/// Proposing keeps the nominees valid too: only the valid ones among the
/// values proposed are voted for.
pub proof fn lemma_propose_keeps_nominees_valid<V: Value, F: ValidityFn<V>, C: CombineFn<V>>(
    s: SlotView,
    values: Set<Seq<u8>>,
    validity: F,
    combine: C,
)
    requires
        nominees_valid::<V, F>(s, validity),
    ensures
        nominees_valid::<V, F>(propose::<V, F, C>(s, values, validity, combine).0, validity),
{
    let s1 = SlotView { x: s.x.union(valid_among::<V, F>(values, validity).difference(s.y)), ..s };
    assert(nominees_valid::<V, F>(s1, validity));
    lemma_advance_keeps_nominees_valid::<V, F, C>(s1, validity, combine);
    lemma_advance_keeps_nominees_valid::<V, F, C>(s, validity, combine);
}

/// Handling a message keeps the nominees valid.
pub proof fn lemma_handle_keeps_nominees_valid<V: Value, F: ValidityFn<V>, C: CombineFn<V>>(
    s: SlotView,
    m: MsgView,
    validity: F,
    combine: C,
)
    requires
        nominees_valid::<V, F>(s, validity),
    ensures
        nominees_valid::<V, F>(handle::<V, F, C>(s, m, validity, combine).0, validity),
{
    let taken = SlotView { msgs: s.msgs.insert(m.sender_id, m), ..s };
    lemma_advance_keeps_nominees_valid::<V, F, C>(taken, validity, combine);
}

/// A look at the timers keeps the nominees valid.
pub proof fn lemma_tick_keeps_nominees_valid<V: Value, F: ValidityFn<V>, C: CombineFn<V>>(
    s: SlotView,
    now: u64,
    validity: F,
    combine: C,
)
    requires
        nominees_valid::<V, F>(s, validity),
    ensures
        nominees_valid::<V, F>(tick::<V, F, C>(s, now, validity, combine).0, validity),
{
    if s.b.n < INFINITY - 1 {
        let n = (s.b.n + 1) as u32;
        let x = if s.phase == Phase::NominatePrepare {
            combined_values::<V, C>(s, combine)
        } else {
            s.b.x
        };
        let bumped = SlotView {
            b: ballot_at(n, x),
            ballot_deadline: Some(deadline_after(now, s.base_interval, n)),
            ballot_timer_counter: n,
            ..s
        };
        lemma_advance_keeps_nominees_valid::<V, F, C>(bumped, validity, combine);
    }
}

/// Nothing nominated is taken back: what the slot votes for or accepts, it
/// goes on voting for or accepting.
pub proof fn lemma_advance_keeps_nominated<V: Value, F: ValidityFn<V>, C: CombineFn<V>>(
    s: SlotView,
    validity: F,
    combine: C,
)
    ensures
        s.x.union(s.y).subset_of(
            advance::<V, F, C>(s, validity, combine).x.union(
                advance::<V, F, C>(s, validity, combine).y,
            ),
        ),
{
    let v = vote_nominees::<V, F>(s, validity);
    let a = accept_nominees::<V, F>(v, validity);
    let c = confirm_nominees::<V>(a);
    assert(s.x.union(s.y).subset_of(c.x.union(c.y)));
    let s1 = match s.phase {
        Phase::Nominate => nominate::<V, F>(s, validity),
        Phase::NominatePrepare => nominate::<V, F>(s, validity),
        _ => s,
    };
    let kept = |t: SlotView| t.x == s1.x && t.y == s1.y;
    let r = accept_prepared::<V>(catch_up::<V>(start_ballot::<V, C>(s1, combine)));
    let g = accept_commit::<V>(settle_phase(confirm_prepared::<V>(switch_ballot(r))));
    assert(kept(r));
    assert(kept(g));
    let h = raise_pn(accept_prepared::<V>(catch_up::<V>(s1)));
    assert(kept(h));
}

/// What went out last is what the slot states now. This holds of a slot
/// between its steps.
pub open spec fn settled(s: SlotView) -> bool {
    s.last_sent == out_msg(s)
}

/// The phase that a topic is of.
pub open spec fn topic_phase(t: TopicView) -> Phase {
    match t {
        TopicView::Nominate(_) => Phase::Nominate,
        TopicView::NominatePrepare(_, _) => Phase::NominatePrepare,
        TopicView::Prepare(_) => Phase::Prepare,
        TopicView::Commit(_) => Phase::Commit,
        TopicView::Externalize(_) => Phase::Externalize,
    }
}

/// The message `m` is in order after what the slot `old` sent last: it is
/// the slot's own, about the slot, and not of an earlier phase than the
/// message that went out before it.
pub open spec fn in_order(old: SlotView, m: MsgView) -> bool {
    &&& m.sender_id == old.node_id
    &&& m.slot_index == old.slot_index
    &&& old.last_sent matches Some(e) ==> phase_rank(topic_phase(m.topic)) >= phase_rank(
        topic_phase(e.topic),
    )
}

/// What holds of a message `out` that a step from `old` to `new` emits: it
/// is in order after what `old` sent last, it is of the phase the slot is
/// now in, and it is what the slot has now sent last.
pub open spec fn follows(old: SlotView, new: SlotView, out: Option<MsgView>) -> bool {
    out matches Some(m) ==> {
        &&& new.last_sent == Some(m)
        &&& topic_phase(m.topic) == new.phase
        &&& in_order(old, m)
    }
}

/// Whether the nominate timer fires at the time `now`: the slot nominates
/// something, and the timer runs and has reached its deadline.
pub open spec fn nominate_fires(s: SlotView, now: u64) -> bool {
    &&& s.phase == Phase::Nominate
    &&& s.x.union(s.y) != Set::<Seq<u8>>::empty()
    &&& s.nominate_deadline matches Some(d) && now >= d
    &&& s.nominate_round < INFINITY
}

/// What holds after the ballot timer fired at the time `now` in the state
/// `old`: the counter is above what it was, a message that went out speaks
/// of a counter above what it was, and the timer runs for the counter that
/// followed, with the deadline that belongs to it.
pub open spec fn ballot_fired(old: SlotView, now: u64, new: SlotView, out: Option<MsgView>) -> bool {
    &&& new.b.n > old.b.n
    &&& out matches Some(m) ==> ballot_counter(m.topic) > old.b.n
    &&& new.ballot_timer_counter == old.b.n + 1
    &&& new.ballot_deadline == Some(
        deadline_after(now, old.base_interval, (old.b.n + 1) as u32),
    )
}

/// Whether the ballot timer fires at the time `now`: the slot prepares or
/// commits, and the timer runs for the present counter and has reached its
/// deadline.
pub open spec fn ballot_fires(s: SlotView, now: u64) -> bool {
    &&& s.phase != Phase::Nominate && s.phase != Phase::Externalize
    &&& s.ballot_deadline matches Some(d) && now >= d
    &&& s.ballot_timer_counter == s.b.n
    &&& s.b.n < INFINITY - 1
}

/// Emitting settles the slot: if what went out last was what the slot
/// stated then, and the slot has since moved on by the rules to the state
/// `a`, then after emitting, what went out last is what the slot states
/// now, and what is emitted follows what went out before.
pub proof fn lemma_emit_settles(before: SlotView, a: SlotView)
    requires
        settled(before),
        a.last_sent == before.last_sent,
        same_slot(before, a),
        phase_rank(a.phase) >= phase_rank(before.phase),
        before.x.union(before.y).subset_of(a.x.union(a.y)),
    ensures
        settled(emit(a).0),
        follows(before, emit(a).0, emit(a).1),
{
    let after = emit(a).0;
    assert(out_msg(after) == out_msg(a));
    assert(statement(after) == statement(a));
    if out_msg(a) is None {
        assert(a.phase == Phase::Nominate);
        assert(before.phase == Phase::Nominate);
        assert(a.x.union(a.y) == Set::<Seq<u8>>::empty());
        assert(before.x.union(before.y) =~= Set::<Seq<u8>>::empty());
        assert(out_msg(before) is None);
    } else {
        let m = out_msg(a)->0;
        assert(topic_phase(m.topic) == a.phase);
        if before.last_sent is Some {
            let e = before.last_sent->0;
            assert(topic_phase(e.topic) == before.phase);
        }
    }
}

/// A slot that has heard nothing and accepted nothing: no message of a
/// peer, no ballot, and no nominee beyond its own votes.
pub open spec fn waiting(s: SlotView) -> bool {
    &&& s.msgs == Map::<NodeIdView, MsgView>::empty()
    &&& s.phase == Phase::Nominate
    &&& s.y == Set::<Seq<u8>>::empty()
    &&& s.z == Set::<Seq<u8>>::empty()
    &&& s.b.n == 0
    &&& s.p is None
    &&& s.pp is None
    &&& s.cn == 0
    &&& s.hn == 0
}

/// The slot's quorum set keeps the rule of [`valid_quorum_set`] and asks
/// for other nodes than the slot's own.
pub open spec fn needs_peers(s: SlotView) -> bool {
    valid_quorum_set(s.quorum_set) && avoids(s.quorum_set.members, only(s.node_id))
}

/// While the peers are silent, the rules move nothing: a slot that needs
/// peers and has heard none goes on waiting, with the votes it had.
pub proof fn lemma_silence_advance<V: Value, F: ValidityFn<V>, C: CombineFn<V>>(
    s: SlotView,
    validity: F,
    combine: C,
)
    requires
        waiting(s),
        needs_peers(s),
    ensures
        advance::<V, F, C>(s, validity, combine) == s,
{
    let q = s.quorum_set;
    assert(members_valid(q.members));
    assert(blocking_need(q) is Some && blocking_need(q)->0 >= 1);
    assert(peer_values(s.msgs) =~= Set::<Seq<u8>>::empty());
    assert(valid_among::<V, F>(peer_values(s.msgs), validity) =~= Set::<Seq<u8>>::empty());
    let v = vote_nominees::<V, F>(s, validity);
    assert(v.x =~= s.x);
    assert(v == s);
    assert forall|k: Seq<u8>| !accepts_nominee::<V>(s, k) by {
        lemma_no_blocking_set_without_messages::<V, ValueSetPredicate<V>>(
            blocking_need(q)->0,
            q.members,
            ValueSetState { values: only(k), claim: Claim::Accepts },
            Set::empty(),
        );
        lemma_no_quorum_without_messages::<V, ValueSetPredicate<V>>(
            q.threshold,
            q.members,
            ValueSetState { values: only(k), claim: Claim::VotesOrAccepts },
            only(s.node_id),
            s.msgs.dom().len(),
        );
    }
    let candidates = s.x.union(valid_among::<V, F>(peer_values(s.msgs), validity));
    assert(candidates.filter(|k: Seq<u8>| accepts_nominee::<V>(s, k)) =~= Set::<Seq<u8>>::empty());
    let a = accept_nominees::<V, F>(s, validity);
    assert(a.y =~= s.y);
    assert(a.x =~= s.x);
    assert(a == s);
    let c = confirm_nominees::<V>(s);
    assert(s.y.filter(|k: Seq<u8>| quorum_states_value::<V>(s, k, Claim::Accepts)) =~= Set::<
        Seq<u8>,
    >::empty());
    assert(c.z =~= s.z);
    assert(c == s);
    assert(nominate::<V, F>(s, validity) == s);
    assert(start_ballot::<V, C>(s, combine) == s);
    assert(catch_up::<V>(s) == s);
    assert(peer_ballots(s.msgs) =~= Set::<BallotView>::empty());
    assert(add_nonzero(peer_ballots(s.msgs), s.b).filter(
        |b: BallotView| accepts_ballot::<V>(s, b),
    ) =~= Set::<BallotView>::empty());
    assert(accepted_ballots::<V>(s) =~= Set::<BallotView>::empty());
    assert(highest_of(accepted_ballots::<V>(s)) is None);
    assert(accept_prepared::<V>(s) == s);
    assert(switch_ballot(s) == s);
    assert(confirm_prepared::<V>(s) == s);
    assert(settle_phase(s) == s);
    assert(accept_commit::<V>(s) == s);
    assert(prepare::<V, C>(s, combine) == s);
}

/// While the peers are silent, a slot that needs them stays in the first
/// phase whatever is proposed to it and however often its timers are looked
/// at: it goes on waiting, and what it emits is a nominate statement.
pub proof fn lemma_silence<V: Value, F: ValidityFn<V>, C: CombineFn<V>>(
    s: SlotView,
    values: Set<Seq<u8>>,
    now: u64,
    validity: F,
    combine: C,
)
    requires
        waiting(s),
        needs_peers(s),
    ensures
        waiting(propose::<V, F, C>(s, values, validity, combine).0),
        needs_peers(propose::<V, F, C>(s, values, validity, combine).0),
        propose::<V, F, C>(s, values, validity, combine).1 matches Some(m) ==> topic_phase(m.topic)
            == Phase::Nominate,
        waiting(tick::<V, F, C>(s, now, validity, combine).0),
        needs_peers(tick::<V, F, C>(s, now, validity, combine).0),
        tick::<V, F, C>(s, now, validity, combine).1 matches Some(m) ==> topic_phase(m.topic)
            == Phase::Nominate,
{
    let s1 = SlotView { x: s.x.union(valid_among::<V, F>(values, validity).difference(s.y)), ..s };
    lemma_silence_advance::<V, F, C>(s1, validity, combine);
    lemma_silence_advance::<V, F, C>(s, validity, combine);
}

/// What the search for one ballot takes a message for: the message passes
/// exactly where it states a ballot with the same values and a counter at
/// least as high, and the search then goes on asking for the same ballot.
pub proof fn lemma_one_ballot_passes<V: Value>(b: BallotView, claim: Claim, msg: MsgView)
    ensures
        BallotRangePredicate::<V>::step(one_ballot(b, claim), msg) is Some <==> b.n >= 1 && covers(
            claimed_ballots(claim, msg.topic),
            b,
        ),
        BallotRangePredicate::<V>::step(one_ballot(b, claim), msg) is Some
            ==> BallotRangePredicate::<V>::step(one_ballot(b, claim), msg) == Some(
            one_ballot(b, claim),
        ),
{
    let stated = claimed_ballots(claim, msg.topic);
    let range = BallotRangeView { values: b.x, min: b.n, max: b.n };
    let ranges = seq![range];
    lemma_claimed_ballots_finite(claim, msg.topic);
    lemma_narrowed_range(range, stated);
    assert(ranges.drop_last() =~= Seq::<BallotRangeView>::empty());
    assert(ranges.last() == range);
    assert(narrowed(ranges.drop_last(), stated) =~= Seq::<BallotRangeView>::empty());
    if narrowed_range(range, stated) is Some {
        let left = narrowed_range(range, stated)->0;
        assert(left == range);
        assert(narrowed(ranges, stated) =~= ranges);
        let c = choose|c: BallotView| #[trigger]
            stated.contains(c) && c.x == range.values && crate::statements::window(
                range.min,
                range.max,
                1,
                c.n,
            ) is Some;
        assert(stated.contains(c) && c.x == b.x && c.n >= b.n);
    } else {
        assert(narrowed(ranges, stated) =~= Seq::<BallotRangeView>::empty());
        if b.n >= 1 && covers(stated, b) {
            let c = choose|c: BallotView| #[trigger] stated.contains(c) && c.x == b.x && c.n >= b.n;
            assert(crate::statements::window(range.min, range.max, 1, c.n) is Some);
        }
    }
}

} // verus!
