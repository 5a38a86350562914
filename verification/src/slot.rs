//! One slot of consensus: the state of the voting on one value list, and the
//! rules that move it.

use crate::ballot::{
    highest_ballot, is_highest, lemma_ballot_lt_total, lemma_highest_unique, Ballot, BallotSet,
    BallotView, INFINITY,
};
use crate::ballot_ranges::{BallotRange, BallotRanges};
use crate::callbacks::{CombineFn, ValidityFn};
use crate::msg::{
    duplicate_option, option_view, CommitPayload, ExternalizePayload, Msg, MsgView,
    NominatePayload, PreparePayload, SlotIndex, Topic,
};
use crate::msg_map::{place_of, MsgMap};
use crate::node_id::{NodeID, NodeIdView};
use crate::predicates::{
    ballot_counter, claimed_values, BallotRangePredicate, Claim, CounterAtLeast, FuncPredicate,
    MinMaxPredicate, Predicate, ValueSetPredicate,
};
use crate::quorum_set::QuorumSet;
use crate::slot_spec;
use crate::error::ScpError;
use crate::slot_spec::{
    accepts_ballot, accepts_nominee, ballot_fired, ballot_fires, blocked_at, blocking_commits,
    blocking_states_ballot, blocking_states_value, consistent, counters_ahead, deadline_after,
    externalized_invalid, follows, is_top, keeps_messages, nominate_fires, nominees_valid,
    peer_ballots, peer_values, progresses, quorum_commits, quorum_states_ballot,
    quorum_states_value, same_slot, same_timers, settled, top_of, valid_among, Phase, SlotView,
};
use crate::statements::{lemma_option_le_transitive, option_le, votes_or_accepts_prepared};
use crate::value::{Rank, Value};
use crate::value_set::{lemma_marked_filter, replicate_values, ValueSet};
use vstd::prelude::*;

verus! {

/// The state of one slot.
#[allow(non_snake_case)]
pub struct Slot<V: Value> {
    /// The number of the slot.
    pub slot_index: SlotIndex,
    /// The local node.
    pub node_id: NodeID,
    /// The local node's quorum set.
    pub quorum_set: QuorumSet,
    /// The latest message of each peer.
    pub M: MsgMap<V>,
    /// The stage the slot is in.
    pub phase: Phase,
    /// Values voted as nominated.
    pub X: ValueSet<V>,
    /// Values accepted as nominated.
    pub Y: ValueSet<V>,
    /// Values confirmed as nominated.
    pub Z: ValueSet<V>,
    /// The current ballot; counter zero while there is none.
    pub B: Ballot<V>,
    /// The highest ballot accepted as prepared.
    pub P: Option<Ballot<V>>,
    /// The highest accepted-prepared ballot with other values than `P`.
    pub PP: Option<Ballot<V>>,
    /// The lowest counter of the commit range.
    pub CN: u32,
    /// The highest counter of the commit range.
    pub HN: u32,
    /// The highest counter accepted as prepared for the ballot's values.
    pub PN: u32,
    /// The last message emitted.
    pub last_sent_msg: Option<Msg<V>>,
    /// How often the nominate timer has fired.
    pub nominate_round: u32,
    /// When the nominate timer fires next, once it runs.
    pub nominate_deadline: Option<u64>,
    /// When the ballot timer fires next, once it runs.
    pub ballot_deadline: Option<u64>,
    /// The ballot counter for which the ballot timer runs.
    pub ballot_timer_counter: u32,
    /// The base interval of both timers, in milliseconds.
    pub base_interval: u64,
}

/// The content of a message that may be absent.
pub open spec fn msg_option_view<V: Value>(m: Option<Msg<V>>) -> Option<MsgView> {
    match m {
        Some(m) => Some(m@),
        None => None,
    }
}

impl<V: Value> View for Slot<V> {
    type V = SlotView;

    open spec fn view(&self) -> SlotView {
        SlotView {
            slot_index: self.slot_index,
            node_id: self.node_id@,
            quorum_set: self.quorum_set@,
            msgs: self.M@,
            phase: self.phase,
            x: self.X@,
            y: self.Y@,
            z: self.Z@,
            b: self.B@,
            p: option_view(self.P),
            pp: option_view(self.PP),
            cn: self.CN,
            hn: self.HN,
            pn: self.PN,
            last_sent: msg_option_view(self.last_sent_msg),
            nominate_round: self.nominate_round,
            nominate_deadline: self.nominate_deadline,
            ballot_deadline: self.ballot_deadline,
            ballot_timer_counter: self.ballot_timer_counter,
            base_interval: self.base_interval,
        }
    }
}

/// The state of a slot that has heard and said nothing.
pub open spec fn fresh_slot(
    node_id: NodeIdView,
    quorum_set: crate::quorum_set::QuorumSetView,
    slot_index: u64,
    base_interval: u64,
) -> SlotView {
    SlotView {
        slot_index,
        node_id,
        quorum_set,
        msgs: Map::empty(),
        phase: Phase::Nominate,
        x: Set::empty(),
        y: Set::empty(),
        z: Set::empty(),
        b: BallotView { n: 0, x: Seq::empty() },
        p: None,
        pp: None,
        cn: 0,
        hn: 0,
        pn: 0,
        last_sent: None,
        nominate_round: 0,
        nominate_deadline: None,
        ballot_deadline: None,
        ballot_timer_counter: 0,
        base_interval,
    }
}

/// The predicate that asks for the one ballot `b`: [`slot_spec::one_ballot`].
pub fn one_ballot<V: Value>(b: &Ballot<V>, claim: Claim) -> (r: BallotRangePredicate<V>)
    ensures
        r.state() == slot_spec::one_ballot(b@, claim),
{
    let mut ranges = BallotRanges::new();
    ranges.insert(BallotRange { values: replicate_values(&b.X), min: b.N, max: b.N });
    let r = BallotRangePredicate { ballot_ranges: ranges, claim };
    assert(r.state().ranges =~= slot_spec::one_ballot(b@, claim).ranges);
    r
}

/// The values that one of the first `n` messages nominates.
pub open spec fn values_among(ms: Seq<MsgView>, n: int) -> Set<Seq<u8>> {
    Set::new(
        |k: Seq<u8>|
            exists|j: int|
                0 <= j < n && j < ms.len() && claimed_values(
                    Claim::VotesOrAccepts,
                    (#[trigger] ms[j]).topic,
                ).contains(k),
    )
}

/// The ballots that one of the first `n` messages states as prepared.
pub open spec fn ballots_among(ms: Seq<MsgView>, n: int) -> Set<BallotView> {
    Set::new(
        |b: BallotView|
            exists|j: int|
                0 <= j < n && j < ms.len() && votes_or_accepts_prepared(
                    (#[trigger] ms[j]).topic,
                ).contains(b),
    )
}

impl<V: Value> Slot<V> {
    /// A slot for the node `node_id` with the quorum set `quorum_set`, which
    /// has heard and said nothing. Its timers go by `base_interval`
    /// milliseconds.
    pub fn new(node_id: NodeID, quorum_set: QuorumSet, slot_index: SlotIndex, base_interval: u64) -> (r:
        Self)
        ensures
            r@ == fresh_slot(node_id@, quorum_set@, slot_index, base_interval),
            consistent(r@),
            settled(r@),
    {
        let b: Ballot<V> = Ballot { N: 0, X: Vec::new() };
        assert(b@.x =~= Seq::<Seq<u8>>::empty());
        assert(Set::<Seq<u8>>::empty().union(Set::<Seq<u8>>::empty()) =~= Set::<Seq<u8>>::empty());
        Slot {
            slot_index,
            node_id,
            quorum_set,
            M: MsgMap::new(),
            phase: Phase::Nominate,
            X: ValueSet::new(),
            Y: ValueSet::new(),
            Z: ValueSet::new(),
            B: b,
            P: None,
            PP: None,
            CN: 0,
            HN: 0,
            PN: 0,
            last_sent_msg: None,
            nominate_round: 0,
            nominate_deadline: None,
            ballot_deadline: None,
            ballot_timer_counter: 0,
            base_interval,
        }
    }

    /// The number of the slot.
    pub fn get_index(&self) -> (i: SlotIndex)
        ensures
            i == self@.slot_index,
    {
        self.slot_index
    }

    /// The last message emitted, if any.
    pub fn get_last_message_sent(&self) -> (m: Option<Msg<V>>)
        ensures
            msg_option_view(m) == self@.last_sent,
    {
        match &self.last_sent_msg {
            Some(m) => Some(m.duplicate()),
            None => None,
        }
    }

    /// Whether a quorum states the value `v` under `claim`.
    pub fn quorum_states_value(&self, v: &V, claim: Claim) -> (b: bool)
        ensures
            b == quorum_states_value::<V>(self@, v.key(), claim),
    {
        let pred = ValueSetPredicate { values: ValueSet::singleton(v.replicate()), claim };
        self.quorum_set.search_quorum(&self.node_id, &self.M, pred).is_some()
    }

    /// Whether a blocking set states the value `v` under `claim`.
    pub fn blocking_states_value(&self, v: &V, claim: Claim) -> (b: bool)
        ensures
            b == blocking_states_value::<V>(self@, v.key(), claim),
    {
        let pred = ValueSetPredicate { values: ValueSet::singleton(v.replicate()), claim };
        match self.quorum_set.search_blocking_set(&self.M, pred) {
            Some((nodes, _)) => !nodes.is_empty(),
            None => false,
        }
    }

    /// Whether a quorum states the ballot `b` as prepared under `claim`.
    pub fn quorum_states_ballot(&self, b: &Ballot<V>, claim: Claim) -> (r: bool)
        ensures
            r == quorum_states_ballot::<V>(self@, b@, claim),
    {
        let pred = one_ballot(b, claim);
        self.quorum_set.search_quorum(&self.node_id, &self.M, pred).is_some()
    }

    /// Whether a blocking set states the ballot `b` as prepared under
    /// `claim`.
    pub fn blocking_states_ballot(&self, b: &Ballot<V>, claim: Claim) -> (r: bool)
        ensures
            r == blocking_states_ballot::<V>(self@, b@, claim),
    {
        let pred = one_ballot(b, claim);
        match self.quorum_set.search_blocking_set(&self.M, pred) {
            Some((nodes, _)) => !nodes.is_empty(),
            None => false,
        }
    }

    /// The part of `[min, max]` that a quorum states as committed for the
    /// ballot's values under `claim`.
    pub fn quorum_commits(&self, min: u32, max: u32, claim: Claim) -> (r: Option<(u32, u32)>)
        ensures
            r == quorum_commits::<V>(self@, min, max, claim),
    {
        let pred = MinMaxPredicate { min, max, values: replicate_values(&self.B.X), claim };
        match self.quorum_set.search_quorum(&self.node_id, &self.M, pred) {
            Some((_, p)) => Some((p.min, p.max)),
            None => None,
        }
    }

    /// The range that a blocking set accepts as committed for the ballot's
    /// values.
    pub fn blocking_commits(&self) -> (r: Option<(u32, u32)>)
        ensures
            r == blocking_commits::<V>(self@),
    {
        let pred = MinMaxPredicate {
            min: 1,
            max: INFINITY,
            values: replicate_values(&self.B.X),
            claim: Claim::Accepts,
        };
        match self.quorum_set.search_blocking_set(&self.M, pred) {
            Some((nodes, p)) => if !nodes.is_empty() {
                Some((p.min, p.max))
            } else {
                None
            },
            None => None,
        }
    }

    /// Whether a blocking set is at a ballot counter of at least `c`.
    pub fn blocked_at(&self, c: u32) -> (r: bool)
        ensures
            r == blocked_at::<V>(self@, c),
    {
        let test = CounterAtLeast { counter: c };
        let pred = FuncPredicate { test_fn: &test };
        match self.quorum_set.search_blocking_set(&self.M, pred) {
            Some((nodes, _)) => !nodes.is_empty(),
            None => false,
        }
    }

    /// The values that some peer nominates.
    pub fn peer_values(&self) -> (r: ValueSet<V>)
        ensures
            r@ == peer_values(self@.msgs),
    {
        let mut r = ValueSet::new();
        let n = self.M.len();
        let mut i: usize = 0;
        proof {
            assert(r@ =~= values_among(self.M.msgs(), 0));
        }
        while i < n
            invariant
                i <= n,
                n == self.M.msgs().len(),
                r@ == values_among(self.M.msgs(), i as int),
            decreases n - i,
        {
            let m = self.M.at(i);
            let ghost before = r@;
            match m.votes_or_accepts_nominated() {
                Some(s) => {
                    r = r.union(&s);
                },
                None => {},
            }
            proof {
                let ms = self.M.msgs();
                let add = claimed_values(Claim::VotesOrAccepts, ms[i as int].topic);
                assert(r@ =~= before.union(add));
                assert forall|k: Seq<u8>| values_among(ms, i + 1).contains(k) == before.union(
                    add,
                ).contains(k) by {
                    if values_among(ms, i + 1).contains(k) {
                        let j = choose|j: int|
                            0 <= j < i + 1 && j < ms.len() && claimed_values(
                                Claim::VotesOrAccepts,
                                (#[trigger] ms[j]).topic,
                            ).contains(k);
                        if j < i {
                            assert(values_among(ms, i as int).contains(k));
                        }
                    }
                    if before.contains(k) {
                        let j = choose|j: int|
                            0 <= j < i && j < ms.len() && claimed_values(
                                Claim::VotesOrAccepts,
                                (#[trigger] ms[j]).topic,
                            ).contains(k);
                        assert(0 <= j < i + 1);
                    }
                    if add.contains(k) {
                        assert(claimed_values(Claim::VotesOrAccepts, ms[i as int].topic).contains(k));
                    }
                }
                assert(r@ =~= values_among(ms, i + 1));
            }
            i = i + 1;
        }
        proof {
            let ms = self.M.msgs();
            self.M.lemma_entries();
            assert forall|k: Seq<u8>| values_among(ms, n as int).contains(k) == peer_values(
                self.M@,
            ).contains(k) by {
                if values_among(ms, n as int).contains(k) {
                    let j = choose|j: int|
                        0 <= j < n && j < ms.len() && claimed_values(
                            Claim::VotesOrAccepts,
                            (#[trigger] ms[j]).topic,
                        ).contains(k);
                    assert(self.M@.contains_key(ms[j].sender_id));
                }
                if peer_values(self.M@).contains(k) {
                    let id = choose|id: NodeIdView| #[trigger]
                        self.M@.contains_key(id) && claimed_values(
                            Claim::VotesOrAccepts,
                            self.M@[id].topic,
                        ).contains(k);
                    let j = place_of(ms, id);
                    assert(ms[j] == self.M@[id]);
                }
            }
            assert(r@ =~= peer_values(self.M@));
        }
        r
    }

    /// The ballots that some peer states as prepared.
    pub fn peer_ballots(&self) -> (r: BallotSet<V>)
        ensures
            r@ == peer_ballots(self@.msgs),
    {
        let mut r = BallotSet::new();
        let n = self.M.len();
        let mut i: usize = 0;
        proof {
            assert(r@ =~= ballots_among(self.M.msgs(), 0));
        }
        while i < n
            invariant
                i <= n,
                n == self.M.msgs().len(),
                r@ == ballots_among(self.M.msgs(), i as int),
            decreases n - i,
        {
            let m = self.M.at(i);
            let ghost before = r@;
            let stated = m.votes_or_accepts_prepared();
            r.extend(&stated);
            proof {
                let ms = self.M.msgs();
                let add = votes_or_accepts_prepared(ms[i as int].topic);
                assert forall|b: BallotView| ballots_among(ms, i + 1).contains(b) == before.union(
                    add,
                ).contains(b) by {
                    if ballots_among(ms, i + 1).contains(b) {
                        let j = choose|j: int|
                            0 <= j < i + 1 && j < ms.len() && votes_or_accepts_prepared(
                                (#[trigger] ms[j]).topic,
                            ).contains(b);
                        if j < i {
                            assert(ballots_among(ms, i as int).contains(b));
                        }
                    }
                    if before.contains(b) {
                        let j = choose|j: int|
                            0 <= j < i && j < ms.len() && votes_or_accepts_prepared(
                                (#[trigger] ms[j]).topic,
                            ).contains(b);
                        assert(0 <= j < i + 1);
                    }
                    if add.contains(b) {
                        assert(votes_or_accepts_prepared(ms[i as int].topic).contains(b));
                    }
                }
                assert(r@ =~= ballots_among(ms, i + 1));
            }
            i = i + 1;
        }
        proof {
            let ms = self.M.msgs();
            self.M.lemma_entries();
            assert forall|b: BallotView| ballots_among(ms, n as int).contains(b) == peer_ballots(
                self.M@,
            ).contains(b) by {
                if ballots_among(ms, n as int).contains(b) {
                    let j = choose|j: int|
                        0 <= j < n && j < ms.len() && votes_or_accepts_prepared(
                            (#[trigger] ms[j]).topic,
                        ).contains(b);
                    assert(self.M@.contains_key(ms[j].sender_id));
                }
                if peer_ballots(self.M@).contains(b) {
                    let id = choose|id: NodeIdView| #[trigger]
                        self.M@.contains_key(id) && votes_or_accepts_prepared(
                            self.M@[id].topic,
                        ).contains(b);
                    let j = place_of(ms, id);
                    assert(ms[j] == self.M@[id]);
                }
            }
            assert(r@ =~= peer_ballots(self.M@));
        }
        r
    }
}

/// The valid ones among `values`.
pub fn keep_valid<V: Value, F: ValidityFn<V>>(values: &ValueSet<V>, validity: &F) -> (r: ValueSet<V>)
    ensures
        r@ == valid_among::<V, F>(values@, *validity),
{
    let mut marks: Vec<bool> = Vec::new();
    let n = values.len();
    let mut i: usize = 0;
    while i < n
        invariant
            i <= n,
            n == values.keys().len(),
            marks.len() == i,
            forall|j: int| 0 <= j < i ==> marks[j] == validity.valid(#[trigger] values.keys()[j]),
        decreases n - i,
    {
        let ok = validity.validate(values.get(i)).is_ok();
        marks.push(ok);
        i = i + 1;
    }
    proof {
        lemma_marked_filter(values.keys(), marks@, |k: Seq<u8>| validity.valid(k));
    }
    values.retain_marked(&marks)
}

impl<V: Value> Slot<V> {
    /// Applies [`slot_spec::vote_nominees`].
    pub fn vote_nominees<F: ValidityFn<V>>(&mut self, validity: &F)
        ensures
            final(self)@ == slot_spec::vote_nominees::<V, F>(old(self)@, *validity),
    {
        if self.Z.is_empty() {
            let peers = self.peer_values();
            let valid = keep_valid(&peers, validity);
            let fresh = valid.difference(&self.Y);
            self.X = self.X.union(&fresh);
        }
    }

    /// Applies [`slot_spec::accept_nominees`].
    pub fn accept_nominees<F: ValidityFn<V>>(&mut self, validity: &F)
        ensures
            final(self)@ == slot_spec::accept_nominees::<V, F>(old(self)@, *validity),
    {
        let peers = self.peer_values();
        let valid = keep_valid(&peers, validity);
        let candidates = self.X.union(&valid);
        let n = candidates.len();
        let mut marks: Vec<bool> = Vec::new();
        let mut i: usize = 0;
        while i < n
            invariant
                i <= n,
                n == candidates.keys().len(),
                marks.len() == i,
                forall|j: int|
                    0 <= j < i ==> marks[j] == accepts_nominee::<V>(
                        self@,
                        #[trigger] candidates.keys()[j],
                    ),
            decreases n - i,
        {
            let v = candidates.get(i);
            let ok = self.blocking_states_value(v, Claim::Accepts) || (self.X.contains(v)
                && self.quorum_states_value(v, Claim::VotesOrAccepts));
            marks.push(ok);
            i = i + 1;
        }
        proof {
            lemma_marked_filter(
                candidates.keys(),
                marks@,
                |k: Seq<u8>| accepts_nominee::<V>(self@, k),
            );
        }
        let accepted = candidates.retain_marked(&marks);
        self.Y = self.Y.union(&accepted);
        self.X = self.X.difference(&self.Y);
    }

    /// Applies [`slot_spec::confirm_nominees`].
    pub fn confirm_nominees(&mut self)
        ensures
            final(self)@ == slot_spec::confirm_nominees::<V>(old(self)@),
    {
        let n = self.Y.len();
        let mut marks: Vec<bool> = Vec::new();
        let mut i: usize = 0;
        while i < n
            invariant
                i <= n,
                n == self.Y.keys().len(),
                marks.len() == i,
                forall|j: int|
                    0 <= j < i ==> marks[j] == quorum_states_value::<V>(
                        self@,
                        #[trigger] self.Y.keys()[j],
                        Claim::Accepts,
                    ),
            decreases n - i,
        {
            let ok = self.quorum_states_value(self.Y.get(i), Claim::Accepts);
            marks.push(ok);
            i = i + 1;
        }
        proof {
            lemma_marked_filter(
                self.Y.keys(),
                marks@,
                |k: Seq<u8>| quorum_states_value::<V>(self@, k, Claim::Accepts),
            );
        }
        let confirmed = self.Y.retain_marked(&marks);
        self.Z = self.Z.union(&confirmed);
    }

    /// Applies [`slot_spec::start_ballot`].
    pub fn start_ballot<C: CombineFn<V>>(&mut self, combine: &C)
        ensures
            final(self)@ == slot_spec::start_ballot::<V, C>(old(self)@, *combine),
    {
        if self.B.N == 0 && !self.Z.is_empty() {
            let c = combine.combine(&self.Z);
            proof {
                use_type_invariant(&c);
                c.lemma_keys_sorted();
            }
            self.B = Ballot { N: 1, X: c.to_vec() };
        }
    }

    /// Applies [`slot_spec::catch_up`].
    pub fn catch_up(&mut self)
        ensures
            final(self)@ == slot_spec::catch_up::<V>(old(self)@),
            final(self)@.b.n >= old(self)@.b.n,
    {
        if self.B.N > 0 {
            let n = self.M.len();
            let mut best: u32 = self.B.N;
            let mut i: usize = 0;
            let ghost ahead = counters_ahead::<V>(self@);
            let ghost ms = self.M.msgs();
            while i < n
                invariant
                    i <= n,
                    n == ms.len(),
                    ms == self.M.msgs(),
                    self.M.wf(),
                    ahead == counters_ahead::<V>(self@),
                    best >= self.B.N,
                    best == self.B.N || ahead.contains(best),
                    forall|j: int|
                        0 <= j < i && ahead.contains(ballot_counter((#[trigger] ms[j]).topic))
                            ==> ballot_counter(ms[j].topic) <= best,
                decreases n - i,
            {
                let m = self.M.at(i);
                let c = m.ballot_counter();
                if c > best && c < INFINITY {
                    if self.blocked_at(c) {
                        best = c;
                    }
                }
                i = i + 1;
            }
            proof {
                self.M.lemma_entries();
                assert forall|c: u32| #[trigger] ahead.contains(c) implies c <= best by {
                    let id = choose|id: NodeIdView| #[trigger]
                        self.M@.contains_key(id) && ballot_counter(self.M@[id].topic) == c;
                    let j = place_of(ms, id);
                    assert(ms[j] == self.M@[id]);
                }
                assert(is_top(ahead, self.B.N, best));
                let t = top_of(ahead, self.B.N);
                assert(is_top(ahead, self.B.N, t));
            }
            self.B.N = best;
        }
    }

    /// The ballots the slot itself accepts as prepared.
    fn held_ballots(&self) -> (r: BallotSet<V>)
        ensures
            r@ == slot_spec::add_option(
                slot_spec::add_option(Set::empty(), self@.p),
                self@.pp,
            ),
    {
        let mut r = BallotSet::new();
        match &self.P {
            Some(p) => {
                r.insert(p.duplicate());
            },
            None => {},
        }
        match &self.PP {
            Some(p) => {
                r.insert(p.duplicate());
            },
            None => {},
        }
        r
    }

    /// The ballots the slot itself states as prepared.
    fn own_ballots(&self) -> (r: BallotSet<V>)
        ensures
            r@ == slot_spec::own_ballots(self@),
    {
        let mut r = BallotSet::new();
        if self.B.N > 0 {
            r.insert(self.B.duplicate());
        }
        match &self.P {
            Some(p) => {
                r.insert(p.duplicate());
            },
            None => {},
        }
        match &self.PP {
            Some(p) => {
                r.insert(p.duplicate());
            },
            None => {},
        }
        r
    }

    /// Computes [`slot_spec::accepted_ballots`].
    fn accepted_ballots(&self) -> (r: BallotSet<V>)
        ensures
            r@ == slot_spec::accepted_ballots::<V>(self@),
    {
        let mut candidates = self.peer_ballots();
        if self.B.N > 0 {
            candidates.insert(self.B.duplicate());
        }
        let own = self.own_ballots();
        let n = candidates.len();
        let mut marks: Vec<bool> = Vec::new();
        let mut i: usize = 0;
        while i < n
            invariant
                i <= n,
                n == candidates.ballots().len(),
                marks.len() == i,
                own@ == slot_spec::own_ballots(self@),
                forall|j: int|
                    0 <= j < i ==> marks[j] == accepts_ballot::<V>(
                        self@,
                        #[trigger] candidates.ballots()[j],
                    ),
            decreases n - i,
        {
            let b = candidates.get(i);
            let ok = self.blocking_states_ballot(b, Claim::Accepts) || (own.covers(b)
                && self.quorum_states_ballot(b, Claim::VotesOrAccepts));
            marks.push(ok);
            i = i + 1;
        }
        proof {
            lemma_marked_filter(
                candidates.ballots(),
                marks@,
                |b: BallotView| accepts_ballot::<V>(self@, b),
            );
        }
        let mut accepted = candidates.retain_marked(&marks);
        match &self.P {
            Some(p) => {
                accepted.insert(p.duplicate());
            },
            None => {},
        }
        match &self.PP {
            Some(p) => {
                accepted.insert(p.duplicate());
            },
            None => {},
        }
        accepted
    }

    /// Applies [`slot_spec::accept_prepared`].
    pub fn accept_prepared(&mut self)
        ensures
            final(self)@ == slot_spec::accept_prepared::<V>(old(self)@),
            option_le(old(self)@.p, final(self)@.p),
    {
        let accepted = self.accepted_ballots();
        let p = accepted.highest();
        proof {
            let found = option_view(p);
            if found is Some {
                let c = choose|c: BallotView| is_highest(accepted@, c);
                lemma_highest_unique(accepted@, found->0, c);
            }
            if self@.p is Some {
                assert(accepted@.contains(self@.p->0));
            }
        }
        let pp = match &p {
            Some(top) => {
                let n = accepted.len();
                let mut marks: Vec<bool> = Vec::new();
                let mut i: usize = 0;
                while i < n
                    invariant
                        i <= n,
                        n == accepted.ballots().len(),
                        marks.len() == i,
                        forall|j: int|
                            0 <= j < i ==> marks[j] == ((#[trigger] accepted.ballots()[j]).x
                                != top@.x),
                    decreases n - i,
                {
                    let other = !accepted.get(i).is_compatible(top);
                    marks.push(other);
                    i = i + 1;
                }
                proof {
                    lemma_marked_filter(
                        accepted.ballots(),
                        marks@,
                        |c: BallotView| c.x != top@.x,
                    );
                }
                let others = accepted.retain_marked(&marks);
                highest_ballot(&others)
            },
            None => None,
        };
        self.P = p;
        self.PP = pp;
    }

    /// Applies [`slot_spec::switch_ballot`].
    pub fn switch_ballot(&mut self)
        ensures
            final(self)@ == slot_spec::switch_ballot(old(self)@),
            final(self)@.b.n >= old(self)@.b.n,
    {
        let next = match &self.P {
            Some(p) => {
                proof {
                    lemma_ballot_lt_total(self.B@, p@);
                }
                if self.CN == 0 && self.HN == 0 && !p.is_compatible(&self.B) && self.B.compare(p)
                    == Rank::Below {
                    let n = if p.N != INFINITY {
                        p.N
                    } else if self.B.N == 0 {
                        1
                    } else {
                        self.B.N
                    };
                    Some(Ballot { N: n, X: replicate_values(&p.X) })
                } else {
                    None
                }
            },
            None => None,
        };
        match next {
            Some(b) => {
                self.B = b;
            },
            None => {},
        }
    }

    /// Applies [`slot_spec::confirm_prepared`].
    pub fn confirm_prepared(&mut self)
        ensures
            final(self)@ == slot_spec::confirm_prepared::<V>(old(self)@),
    {
        if self.B.N > 0 {
            let held = self.held_ballots();
            if held.covers(&self.B) && self.quorum_states_ballot(&self.B, Claim::Accepts) {
                if self.CN == 0 {
                    self.CN = self.B.N;
                }
                if self.HN < self.B.N {
                    self.HN = self.B.N;
                }
            }
        }
    }

    /// Applies [`slot_spec::settle_phase`].
    pub fn settle_phase(&mut self)
        ensures
            final(self)@ == slot_spec::settle_phase(old(self)@),
    {
        match self.phase {
            Phase::Commit => {},
            Phase::Externalize => {},
            _ => {
                self.phase = if self.B.N == 0 {
                    Phase::Nominate
                } else if self.HN == 0 {
                    Phase::NominatePrepare
                } else {
                    Phase::Prepare
                };
            },
        }
    }

    /// Applies [`slot_spec::raise_pn`].
    pub fn raise_pn(&mut self)
        ensures
            final(self)@ == slot_spec::raise_pn(old(self)@),
    {
        let n = match &self.P {
            Some(p) => if p.is_compatible(&self.B) && p.N > self.PN {
                p.N
            } else {
                self.PN
            },
            None => self.PN,
        };
        self.PN = n;
    }

    /// Applies [`slot_spec::accept_commit`].
    pub fn accept_commit(&mut self)
        ensures
            final(self)@ == slot_spec::accept_commit::<V>(old(self)@),
    {
        if self.B.N > 0 {
            let by_quorum = if self.CN > 0 {
                self.quorum_commits(self.CN, self.HN, Claim::VotesOrAccepts)
            } else {
                None
            };
            let range = match by_quorum {
                Some(w) => Some(w),
                None => self.blocking_commits(),
            };
            match range {
                Some((lo, hi)) => {
                    self.phase = Phase::Commit;
                    self.CN = lo;
                    self.HN = hi;
                    self.raise_pn();
                },
                None => {},
            }
        }
    }

    /// Applies [`slot_spec::confirm_commit`].
    pub fn confirm_commit(&mut self)
        ensures
            final(self)@ == slot_spec::confirm_commit::<V>(old(self)@),
    {
        match self.quorum_commits(self.CN, self.HN, Claim::Accepts) {
            Some((lo, hi)) => {
                self.phase = Phase::Externalize;
                self.CN = lo;
                self.HN = hi;
            },
            None => {},
        }
    }

    /// Applies [`slot_spec::raise_externalized`].
    pub fn raise_externalized(&mut self)
        ensures
            final(self)@ == slot_spec::raise_externalized::<V>(old(self)@),
    {
        let top = Ballot { N: INFINITY, X: replicate_values(&self.B.X) };
        if self.quorum_states_ballot(&top, Claim::Accepts) {
            self.HN = INFINITY;
        }
    }

    /// Applies all the rules once: [`slot_spec::advance`].
    pub fn advance<F: ValidityFn<V>, C: CombineFn<V>>(&mut self, validity: &F, combine: &C)
        requires
            consistent(old(self)@),
        ensures
            final(self)@ == slot_spec::advance::<V, F, C>(old(self)@, *validity, *combine),
            consistent(final(self)@),
            progresses(old(self)@, final(self)@),
            same_slot(old(self)@, final(self)@),
            final(self)@.msgs == old(self)@.msgs,
            final(self)@.last_sent == old(self)@.last_sent,
            same_timers(old(self)@, final(self)@),
            old(self)@.x.union(old(self)@.y).subset_of(final(self)@.x.union(final(self)@.y)),
    {
        proof {
            slot_spec::lemma_advance_keeps_nominated::<V, F, C>(self@, *validity, *combine);
        }
        match self.phase {
            Phase::Nominate | Phase::NominatePrepare => {
                self.vote_nominees(validity);
                self.accept_nominees(validity);
                self.confirm_nominees();
            },
            _ => {},
        }
        match self.phase {
            Phase::Commit => {
                self.catch_up();
                self.accept_prepared();
                self.raise_pn();
            },
            Phase::Externalize => {},
            _ => {
                self.start_ballot(combine);
                self.catch_up();
                self.accept_prepared();
                self.switch_ballot();
                self.confirm_prepared();
                self.settle_phase();
                self.accept_commit();
            },
        }
        match self.phase {
            Phase::Commit => {
                self.confirm_commit();
            },
            _ => {},
        }
        match self.phase {
            Phase::Externalize => {
                self.raise_externalized();
            },
            _ => {},
        }
    }
}

/// What a slot reports of itself.
#[allow(non_snake_case)]
pub struct SlotMetrics {
    /// The stage the slot is in.
    pub phase: Phase,
    /// How many values it votes to nominate.
    pub num_voted_nominated: usize,
    /// How many values it accepts as nominated.
    pub num_accepted_nominated: usize,
    /// How many values it has confirmed as nominated.
    pub num_confirmed_nominated: usize,
    /// How often the nominate timer has fired.
    pub cur_nomination_round: u32,
    /// The counter of the current ballot.
    pub bN: u32,
    /// How many peers it has heard.
    pub num_messages: usize,
}

/// Computes [`deadline_after`].
pub fn deadline(now: u64, base: u64, n: u32) -> (d: u64)
    ensures
        d == deadline_after(now, base, n),
{
    let steps: u128 = n as u128 + 1;
    assert(base as u128 * steps <= 0xffff_ffff_ffff_ffff * 0x1_0000_0000) by (nonlinear_arith)
        requires
            base as u128 <= 0xffff_ffff_ffff_ffff,
            steps <= 0x1_0000_0000,
    ;
    let wide: u128 = now as u128 + base as u128 * steps;
    if wide > u64::MAX as u128 {
        u64::MAX
    } else {
        wide as u64
    }
}

impl<V: Value> Slot<V> {
    /// The message that carries what the slot states now.
    pub fn out_msg(&self) -> (r: Option<Msg<V>>)
        ensures
            msg_option_view(r) == slot_spec::out_msg(self@),
    {
        let topic = match self.phase {
            Phase::Nominate => {
                proof {
                    if self.X@.union(self.Y@) == Set::<Seq<u8>>::empty() {
                        assert(self.X@ =~= Set::<Seq<u8>>::empty());
                        assert(self.Y@ =~= Set::<Seq<u8>>::empty());
                    } else if self.X@ == Set::<Seq<u8>>::empty() && self.Y@ == Set::<
                        Seq<u8>,
                    >::empty() {
                        assert(self.X@.union(self.Y@) =~= Set::<Seq<u8>>::empty());
                    }
                }
                if self.X.is_empty() && self.Y.is_empty() {
                    None
                } else {
                    Some(
                        Topic::Nominate(
                            NominatePayload { X: self.X.duplicate(), Y: self.Y.duplicate() },
                        ),
                    )
                }
            },
            Phase::NominatePrepare => Some(
                Topic::NominatePrepare(
                    NominatePayload { X: self.X.duplicate(), Y: self.Y.duplicate() },
                    self.prepare_payload(),
                ),
            ),
            Phase::Prepare => Some(Topic::Prepare(self.prepare_payload())),
            Phase::Commit => Some(
                Topic::Commit(
                    CommitPayload { B: self.B.duplicate(), PN: self.PN, CN: self.CN, HN: self.HN },
                ),
            ),
            Phase::Externalize => Some(
                Topic::Externalize(
                    ExternalizePayload {
                        C: Ballot { N: self.CN, X: replicate_values(&self.B.X) },
                        HN: self.HN,
                    },
                ),
            ),
        };
        match topic {
            Some(t) => Some(
                Msg::new(
                    self.node_id.duplicate(),
                    self.quorum_set.duplicate(),
                    self.slot_index,
                    t,
                ),
            ),
            None => None,
        }
    }

    /// The prepare part of what the slot states now.
    fn prepare_payload(&self) -> (r: PreparePayload<V>)
        ensures
            r@ == (crate::msg::PrepareView {
                b: self@.b,
                p: self@.p,
                pp: self@.pp,
                cn: self@.cn,
                hn: self@.hn,
            }),
    {
        PreparePayload {
            B: self.B.duplicate(),
            P: duplicate_option(&self.P),
            PP: duplicate_option(&self.PP),
            CN: self.CN,
            HN: self.HN,
        }
    }

    /// Emits the slot's statement if it is not what went out last.
    pub fn emit(&mut self) -> (r: Option<Msg<V>>)
        ensures
            (final(self)@, msg_option_view(r)) == slot_spec::emit(old(self)@),
    {
        match self.out_msg() {
            Some(m) => {
                let again = match &self.last_sent_msg {
                    Some(last) => last.same(&m),
                    None => false,
                };
                if again {
                    None
                } else {
                    self.last_sent_msg = Some(m.duplicate());
                    Some(m)
                }
            },
            None => None,
        }
    }

    /// Whether some value of the current ballot is invalid.
    fn holds_invalid_value<F: ValidityFn<V>>(&self, validity: &F) -> (b: bool)
        ensures
            b == exists|i: int| 0 <= i < self@.b.x.len() && !validity.valid(#[trigger] self@.b.x[i]),
    {
        let mut i: usize = 0;
        while i < self.B.X.len()
            invariant
                i <= self.B.X.len(),
                forall|j: int| 0 <= j < i ==> validity.valid(#[trigger] self@.b.x[j]),
            decreases self.B.X.len() - i,
        {
            if validity.validate(&self.B.X[i]).is_err() {
                assert(!validity.valid(self@.b.x[i as int]));
                return true;
            }
            i = i + 1;
        }
        false
    }

    /// Handles a message of a peer: [`slot_spec::handle`].
    ///
    /// A message of the local node, one about another slot, and one that
    /// does not replace the sender's latest, change nothing. Otherwise the
    /// message becomes the sender's latest and the rules are applied. What is
    /// handed back is the slot's new statement, if it is not what went out
    /// last; or an error, where this step externalized a value that the
    /// application holds invalid.
    pub fn handle<F: ValidityFn<V>, C: CombineFn<V>>(
        &mut self,
        msg: &Msg<V>,
        validity: &F,
        combine: &C,
    ) -> (r: Result<Option<Msg<V>>, ScpError>)
        requires
            consistent(old(self)@),
        ensures
            final(self)@ == slot_spec::handle::<V, F, C>(old(self)@, msg@, *validity, *combine).0,
            match r {
                Ok(out) => msg_option_view(out) == slot_spec::handle::<V, F, C>(
                    old(self)@,
                    msg@,
                    *validity,
                    *combine,
                ).1 && !externalized_invalid::<V, F>(old(self)@, final(self)@, *validity),
                Err(e) => e == ScpError::InvalidExternalizedValue && externalized_invalid::<V, F>(
                    old(self)@,
                    final(self)@,
                    *validity,
                ),
            },
            consistent(final(self)@),
            progresses(old(self)@, final(self)@),
            same_slot(old(self)@, final(self)@),
            keeps_messages(old(self)@, final(self)@),
            nominees_valid::<V, F>(old(self)@, *validity) ==> nominees_valid::<V, F>(
                final(self)@,
                *validity,
            ),
            settled(old(self)@) ==> settled(final(self)@) && follows(
                old(self)@,
                final(self)@,
                slot_spec::handle::<V, F, C>(old(self)@, msg@, *validity, *combine).1,
            ),
    {
        proof {
            if nominees_valid::<V, F>(self@, *validity) {
                slot_spec::lemma_handle_keeps_nominees_valid::<V, F, C>(
                    self@,
                    msg@,
                    *validity,
                    *combine,
                );
            }
        }
        if msg.sender_id.same(&self.node_id) || msg.slot_index != self.slot_index {
            return Ok(None);
        }
        match self.M.get(&msg.sender_id) {
            Some(latest) => {
                if !msg.topic.supersedes(&latest.topic) {
                    return Ok(None);
                }
            },
            None => {},
        }
        let was = self.phase;
        self.M.insert(msg.duplicate());
        self.advance(validity, combine);
        proof {
            if settled(old(self)@) {
                slot_spec::lemma_emit_settles(old(self)@, self@);
            }
        }
        let out = self.emit();
        if !phase_is_externalize(was) && phase_is_externalize(self.phase) && self.holds_invalid_value(
            validity,
        ) {
            Err(ScpError::InvalidExternalizedValue)
        } else {
            Ok(out)
        }
    }

    /// Proposes values for nomination: [`slot_spec::propose`].
    pub fn propose_values<F: ValidityFn<V>, C: CombineFn<V>>(
        &mut self,
        values: &ValueSet<V>,
        validity: &F,
        combine: &C,
    ) -> (r: Result<Option<Msg<V>>, ScpError>)
        requires
            consistent(old(self)@),
        ensures
            final(self)@ == slot_spec::propose::<V, F, C>(
                old(self)@,
                values@,
                *validity,
                *combine,
            ).0,
            match r {
                Ok(out) => msg_option_view(out) == slot_spec::propose::<V, F, C>(
                    old(self)@,
                    values@,
                    *validity,
                    *combine,
                ).1 && !externalized_invalid::<V, F>(old(self)@, final(self)@, *validity),
                Err(e) => e == ScpError::InvalidExternalizedValue && externalized_invalid::<V, F>(
                    old(self)@,
                    final(self)@,
                    *validity,
                ),
            },
            consistent(final(self)@),
            progresses(old(self)@, final(self)@),
            same_slot(old(self)@, final(self)@),
            final(self)@.msgs == old(self)@.msgs,
            nominees_valid::<V, F>(old(self)@, *validity) ==> nominees_valid::<V, F>(
                final(self)@,
                *validity,
            ),
            settled(old(self)@) ==> settled(final(self)@) && follows(
                old(self)@,
                final(self)@,
                slot_spec::propose::<V, F, C>(old(self)@, values@, *validity, *combine).1,
            ),
    {
        proof {
            if nominees_valid::<V, F>(self@, *validity) {
                slot_spec::lemma_propose_keeps_nominees_valid::<V, F, C>(
                    self@,
                    values@,
                    *validity,
                    *combine,
                );
            }
        }
        let was = self.phase;
        let open = match self.phase {
            Phase::Nominate => self.Z.is_empty(),
            Phase::NominatePrepare => self.Z.is_empty(),
            _ => false,
        };
        if open {
            let valid = keep_valid(values, validity);
            let fresh = valid.difference(&self.Y);
            self.X = self.X.union(&fresh);
        }
        self.advance(validity, combine);
        proof {
            if settled(old(self)@) {
                slot_spec::lemma_emit_settles(old(self)@, self@);
            }
        }
        let out = self.emit();
        if !phase_is_externalize(was) && phase_is_externalize(self.phase) && self.holds_invalid_value(
            validity,
        ) {
            Err(ScpError::InvalidExternalizedValue)
        } else {
            Ok(out)
        }
    }

    /// Looks at the timers at the time `now`, in milliseconds:
    /// [`slot_spec::tick`]. Hands back the messages that fired timers
    /// emitted, in the order of firing.
    pub fn process_timeouts<F: ValidityFn<V>, C: CombineFn<V>>(
        &mut self,
        now: u64,
        validity: &F,
        combine: &C,
    ) -> (r: Result<Vec<Msg<V>>, ScpError>)
        requires
            consistent(old(self)@),
        ensures
            final(self)@ == slot_spec::tick::<V, F, C>(old(self)@, now, *validity, *combine).0,
            match r {
                Ok(out) => out@.len() <= 1 && emitted(out@) == slot_spec::tick::<V, F, C>(
                    old(self)@,
                    now,
                    *validity,
                    *combine,
                ).1 && !externalized_invalid::<V, F>(old(self)@, final(self)@, *validity),
                Err(e) => e == ScpError::InvalidExternalizedValue && externalized_invalid::<V, F>(
                    old(self)@,
                    final(self)@,
                    *validity,
                ),
            },
            consistent(final(self)@),
            progresses(old(self)@, final(self)@),
            same_slot(old(self)@, final(self)@),
            final(self)@.msgs == old(self)@.msgs,
            nominees_valid::<V, F>(old(self)@, *validity) ==> nominees_valid::<V, F>(
                final(self)@,
                *validity,
            ),
            settled(old(self)@) ==> settled(final(self)@) && follows(
                old(self)@,
                final(self)@,
                slot_spec::tick::<V, F, C>(old(self)@, now, *validity, *combine).1,
            ),
            settled(old(self)@) && (nominate_fires(old(self)@, now) || ballot_fires(
                old(self)@,
                now,
            )) ==> slot_spec::tick::<V, F, C>(old(self)@, now, *validity, *combine).1 is Some,
            ballot_fires(old(self)@, now) ==> ballot_fired(
                old(self)@,
                now,
                final(self)@,
                slot_spec::tick::<V, F, C>(old(self)@, now, *validity, *combine).1,
            ),
    {
        proof {
            if nominees_valid::<V, F>(self@, *validity) {
                slot_spec::lemma_tick_keeps_nominees_valid::<V, F, C>(
                    self@,
                    now,
                    *validity,
                    *combine,
                );
            }
        }
        let was = self.phase;
        let out = match self.phase {
            Phase::Nominate => self.nominate_tick(now),
            Phase::Externalize => None,
            _ => self.ballot_tick(now, validity, combine),
        };
        if !phase_is_externalize(was) && phase_is_externalize(self.phase) && self.holds_invalid_value(
            validity,
        ) {
            return Err(ScpError::InvalidExternalizedValue);
        }
        let mut sent: Vec<Msg<V>> = Vec::new();
        match out {
            Some(m) => {
                sent.push(m);
            },
            None => {},
        }
        Ok(sent)
    }

    /// The nominate timer: [`slot_spec::nominate_tick`].
    fn nominate_tick(&mut self, now: u64) -> (r: Option<Msg<V>>)
        ensures
            (final(self)@, msg_option_view(r)) == slot_spec::nominate_tick(old(self)@, now),
    {
        proof {
            if self.X@.union(self.Y@) == Set::<Seq<u8>>::empty() {
                assert(self.X@ =~= Set::<Seq<u8>>::empty());
                assert(self.Y@ =~= Set::<Seq<u8>>::empty());
            } else if self.X@ == Set::<Seq<u8>>::empty() && self.Y@ == Set::<Seq<u8>>::empty() {
                assert(self.X@.union(self.Y@) =~= Set::<Seq<u8>>::empty());
            }
        }
        if self.X.is_empty() && self.Y.is_empty() {
            return None;
        }
        match self.nominate_deadline {
            None => {
                self.nominate_deadline = Some(
                    deadline(now, self.base_interval, self.nominate_round),
                );
                None
            },
            Some(d) => {
                if now >= d && self.nominate_round < INFINITY {
                    self.nominate_round = self.nominate_round + 1;
                    self.nominate_deadline = Some(
                        deadline(now, self.base_interval, self.nominate_round),
                    );
                    match self.out_msg() {
                        Some(m) => {
                            self.last_sent_msg = Some(m.duplicate());
                            Some(m)
                        },
                        None => None,
                    }
                } else {
                    None
                }
            },
        }
    }

    /// The ballot timer: [`slot_spec::ballot_tick`].
    fn ballot_tick<F: ValidityFn<V>, C: CombineFn<V>>(
        &mut self,
        now: u64,
        validity: &F,
        combine: &C,
    ) -> (r: Option<Msg<V>>)
        requires
            consistent(old(self)@),
            old(self)@.phase != Phase::Nominate,
            old(self)@.phase != Phase::Externalize,
        ensures
            (final(self)@, msg_option_view(r)) == slot_spec::ballot_tick::<V, F, C>(
                old(self)@,
                now,
                *validity,
                *combine,
            ),
            consistent(final(self)@),
            progresses(old(self)@, final(self)@),
            same_slot(old(self)@, final(self)@),
            final(self)@.msgs == old(self)@.msgs,
            settled(old(self)@) ==> settled(final(self)@) && follows(
                old(self)@,
                final(self)@,
                msg_option_view(r),
            ),
            settled(old(self)@) && ballot_fires(old(self)@, now) ==> r is Some,
            ballot_fires(old(self)@, now) ==> ballot_fired(
                old(self)@,
                now,
                final(self)@,
                msg_option_view(r),
            ),
    {
        let runs = match self.ballot_deadline {
            Some(d) => if self.ballot_timer_counter == self.B.N {
                Some(d)
            } else {
                None
            },
            None => None,
        };
        match runs {
            None => {
                self.ballot_deadline = Some(deadline(now, self.base_interval, self.B.N));
                self.ballot_timer_counter = self.B.N;
                None
            },
            Some(d) => {
                if now >= d && self.B.N < INFINITY - 1 {
                    let n = self.B.N + 1;
                    let x = match self.phase {
                        Phase::NominatePrepare => {
                            let c = combine.combine(&self.Z);
                            proof {
                                use_type_invariant(&c);
                                c.lemma_keys_sorted();
                            }
                            c.to_vec()
                        },
                        _ => replicate_values(&self.B.X),
                    };
                    self.B = Ballot { N: n, X: x };
                    self.ballot_deadline = Some(deadline(now, self.base_interval, n));
                    self.ballot_timer_counter = n;
                    let ghost mid = self@;
                    self.advance(validity, combine);
                    proof {
                        lemma_option_le_transitive(old(self)@.p, mid.p, self@.p);
                    }
                    self.emit()
                } else {
                    None
                }
            },
        }
    }

    /// What the slot reports of itself.
    pub fn get_metrics(&self) -> (r: SlotMetrics)
        ensures
            r.phase == self@.phase,
            r.num_voted_nominated == self@.x.len(),
            r.num_accepted_nominated == self@.y.len(),
            r.num_confirmed_nominated == self@.z.len(),
            r.cur_nomination_round == self@.nominate_round,
            r.bN == self@.b.n,
            r.num_messages == self@.msgs.dom().len(),
    {
        SlotMetrics {
            phase: self.phase,
            num_voted_nominated: self.X.len(),
            num_accepted_nominated: self.Y.len(),
            num_confirmed_nominated: self.Z.len(),
            cur_nomination_round: self.nominate_round,
            bN: self.B.N,
            num_messages: self.M.len(),
        }
    }
}

/// Whether `p` is the last phase.
pub fn phase_is_externalize(p: Phase) -> (b: bool)
    ensures
        b == (p == Phase::Externalize),
{
    match p {
        Phase::Externalize => true,
        _ => false,
    }
}

/// What a list of at most one message emits.
pub open spec fn emitted<V: Value>(out: Seq<Msg<V>>) -> Option<MsgView> {
    if out.len() == 0 {
        None
    } else {
        Some(out[0]@)
    }
}

} // verus!
