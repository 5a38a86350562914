//! Messages: what a node states about a slot.

use crate::ballot::{Ballot, BallotView};
use crate::node_id::{NodeID, NodeIdView};
use crate::quorum_set::{QuorumSet, QuorumSetView};
use crate::value::{Value};
use crate::value_set::{ValueSet};
use vstd::prelude::*;

verus! {

/// The number of a consensus instance.
pub type SlotIndex = u64;

/// The nominate part of a statement.
#[allow(non_snake_case)]
pub struct NominatePayload<V: Value> {
    /// The values the sender votes to nominate.
    pub X: ValueSet<V>,
    /// The values the sender accepts as nominated.
    pub Y: ValueSet<V>,
}

/// The prepare part of a statement.
#[allow(non_snake_case)]
pub struct PreparePayload<V: Value> {
    /// The sender's current ballot.
    pub B: Ballot<V>,
    /// The highest ballot the sender accepts as prepared.
    pub P: Option<Ballot<V>>,
    /// The highest accepted-prepared ballot whose values differ from those of `P`.
    pub PP: Option<Ballot<V>>,
    /// The lowest counter of the range the sender votes to commit, or zero.
    pub CN: u32,
    /// The highest counter of that range, or zero.
    pub HN: u32,
}

/// A statement of the commit phase.
#[allow(non_snake_case)]
pub struct CommitPayload<V: Value> {
    /// The sender's current ballot.
    pub B: Ballot<V>,
    /// The highest counter the sender accepts as prepared.
    pub PN: u32,
    /// The lowest counter of the range the sender accepts as committed.
    pub CN: u32,
    /// The highest counter of that range.
    pub HN: u32,
}

/// A statement of the externalize phase.
#[allow(non_snake_case)]
pub struct ExternalizePayload<V: Value> {
    /// The lowest ballot the sender confirmed as committed.
    pub C: Ballot<V>,
    /// The highest counter of the confirmed range.
    pub HN: u32,
}

/// What a message states, by phase.
pub enum Topic<V: Value> {
    Nominate(NominatePayload<V>),
    NominatePrepare(NominatePayload<V>, PreparePayload<V>),
    Prepare(PreparePayload<V>),
    Commit(CommitPayload<V>),
    Externalize(ExternalizePayload<V>),
}

/// A statement of one node about one slot.
pub struct Msg<V: Value> {
    /// Who states it.
    pub sender_id: NodeID,
    /// The quorum set of the sender.
    pub quorum_set: QuorumSet,
    /// The slot it is about.
    pub slot_index: SlotIndex,
    /// What is stated.
    pub topic: Topic<V>,
}

pub struct NominateView {
    pub x: Set<Seq<u8>>,
    pub y: Set<Seq<u8>>,
}

pub struct PrepareView {
    pub b: BallotView,
    pub p: Option<BallotView>,
    pub pp: Option<BallotView>,
    pub cn: u32,
    pub hn: u32,
}

pub struct CommitView {
    pub b: BallotView,
    pub pn: u32,
    pub cn: u32,
    pub hn: u32,
}

pub struct ExternalizeView {
    pub c: BallotView,
    pub hn: u32,
}

pub enum TopicView {
    Nominate(NominateView),
    NominatePrepare(NominateView, PrepareView),
    Prepare(PrepareView),
    Commit(CommitView),
    Externalize(ExternalizeView),
}

pub struct MsgView {
    pub sender_id: NodeIdView,
    pub quorum_set: QuorumSetView,
    pub slot_index: u64,
    pub topic: TopicView,
}

/// The content of a ballot that may be absent.
pub open spec fn option_view<V: Value>(b: Option<Ballot<V>>) -> Option<BallotView> {
    match b {
        Some(b) => Some(b@),
        None => None,
    }
}

/// A copy of a ballot that may be absent.
pub fn duplicate_option<V: Value>(b: &Option<Ballot<V>>) -> (r: Option<Ballot<V>>)
    ensures
        option_view(r) == option_view(*b),
{
    match b {
        Some(b) => Some(b.duplicate()),
        None => None,
    }
}

/// Whether two ballots that may be absent are equal.
pub fn same_option<V: Value>(a: &Option<Ballot<V>>, b: &Option<Ballot<V>>) -> (r: bool)
    ensures
        r == (option_view(*a) == option_view(*b)),
{
    match a {
        Some(x) => match b {
            Some(y) => x.same(y),
            None => false,
        },
        None => b.is_none(),
    }
}

impl<V: Value> View for NominatePayload<V> {
    type V = NominateView;

    open spec fn view(&self) -> NominateView {
        NominateView { x: self.X@, y: self.Y@ }
    }
}

impl<V: Value> View for PreparePayload<V> {
    type V = PrepareView;

    open spec fn view(&self) -> PrepareView {
        PrepareView {
            b: self.B@,
            p: option_view(self.P),
            pp: option_view(self.PP),
            cn: self.CN,
            hn: self.HN,
        }
    }
}

impl<V: Value> View for CommitPayload<V> {
    type V = CommitView;

    open spec fn view(&self) -> CommitView {
        CommitView { b: self.B@, pn: self.PN, cn: self.CN, hn: self.HN }
    }
}

impl<V: Value> View for ExternalizePayload<V> {
    type V = ExternalizeView;

    open spec fn view(&self) -> ExternalizeView {
        ExternalizeView { c: self.C@, hn: self.HN }
    }
}

impl<V: Value> View for Topic<V> {
    type V = TopicView;

    open spec fn view(&self) -> TopicView {
        match self {
            Topic::Nominate(n) => TopicView::Nominate(n@),
            Topic::NominatePrepare(n, p) => TopicView::NominatePrepare(n@, p@),
            Topic::Prepare(p) => TopicView::Prepare(p@),
            Topic::Commit(c) => TopicView::Commit(c@),
            Topic::Externalize(e) => TopicView::Externalize(e@),
        }
    }
}

impl<V: Value> View for Msg<V> {
    type V = MsgView;

    open spec fn view(&self) -> MsgView {
        MsgView {
            sender_id: self.sender_id@,
            quorum_set: self.quorum_set@,
            slot_index: self.slot_index,
            topic: self.topic@,
        }
    }
}

impl<V: Value> NominatePayload<V> {
    /// A copy of the payload.
    pub fn duplicate(&self) -> (r: Self)
        ensures
            r@ == self@,
    {
        NominatePayload { X: self.X.duplicate(), Y: self.Y.duplicate() }
    }

    /// Whether the two payloads state the same.
    pub fn same(&self, other: &Self) -> (b: bool)
        ensures
            b == (self@ == other@),
    {
        self.X.same(&other.X) && self.Y.same(&other.Y)
    }
}

impl<V: Value> PreparePayload<V> {
    /// A copy of the payload.
    pub fn duplicate(&self) -> (r: Self)
        ensures
            r@ == self@,
    {
        PreparePayload {
            B: self.B.duplicate(),
            P: duplicate_option(&self.P),
            PP: duplicate_option(&self.PP),
            CN: self.CN,
            HN: self.HN,
        }
    }

    /// Whether the two payloads state the same.
    pub fn same(&self, other: &Self) -> (b: bool)
        ensures
            b == (self@ == other@),
    {
        self.B.same(&other.B) && same_option(&self.P, &other.P) && same_option(&self.PP, &other.PP)
            && self.CN == other.CN && self.HN == other.HN
    }
}

impl<V: Value> CommitPayload<V> {
    /// A copy of the payload.
    pub fn duplicate(&self) -> (r: Self)
        ensures
            r@ == self@,
    {
        CommitPayload { B: self.B.duplicate(), PN: self.PN, CN: self.CN, HN: self.HN }
    }

    /// Whether the two payloads state the same.
    pub fn same(&self, other: &Self) -> (b: bool)
        ensures
            b == (self@ == other@),
    {
        self.B.same(&other.B) && self.PN == other.PN && self.CN == other.CN && self.HN == other.HN
    }
}

impl<V: Value> ExternalizePayload<V> {
    /// A copy of the payload.
    pub fn duplicate(&self) -> (r: Self)
        ensures
            r@ == self@,
    {
        ExternalizePayload { C: self.C.duplicate(), HN: self.HN }
    }

    /// Whether the two payloads state the same.
    pub fn same(&self, other: &Self) -> (b: bool)
        ensures
            b == (self@ == other@),
    {
        self.C.same(&other.C) && self.HN == other.HN
    }
}

impl<V: Value> Topic<V> {
    /// A copy of the topic.
    pub fn duplicate(&self) -> (r: Self)
        ensures
            r@ == self@,
    {
        match self {
            Topic::Nominate(n) => Topic::Nominate(n.duplicate()),
            Topic::NominatePrepare(n, p) => Topic::NominatePrepare(n.duplicate(), p.duplicate()),
            Topic::Prepare(p) => Topic::Prepare(p.duplicate()),
            Topic::Commit(c) => Topic::Commit(c.duplicate()),
            Topic::Externalize(e) => Topic::Externalize(e.duplicate()),
        }
    }

    /// Whether the two topics state the same.
    pub fn same(&self, other: &Self) -> (b: bool)
        ensures
            b == (self@ == other@),
    {
        match self {
            Topic::Nominate(n) => match other {
                Topic::Nominate(n2) => n.same(n2),
                _ => false,
            },
            Topic::NominatePrepare(n, p) => match other {
                Topic::NominatePrepare(n2, q) => n.same(n2) && p.same(q),
                _ => false,
            },
            Topic::Prepare(p) => match other {
                Topic::Prepare(q) => p.same(q),
                _ => false,
            },
            Topic::Commit(c) => match other {
                Topic::Commit(c2) => c.same(c2),
                _ => false,
            },
            Topic::Externalize(e) => match other {
                Topic::Externalize(e2) => e.same(e2),
                _ => false,
            },
        }
    }
}

impl<V: Value> Msg<V> {
    /// The message of `sender_id`, whose quorum set is `quorum_set`, stating
    /// `topic` about slot `slot_index`.
    pub fn new(sender_id: NodeID, quorum_set: QuorumSet, slot_index: SlotIndex, topic: Topic<V>) -> (r:
        Self)
        ensures
            r@ == (MsgView {
                sender_id: sender_id@,
                quorum_set: quorum_set@,
                slot_index,
                topic: topic@,
            }),
    {
        Msg { sender_id, quorum_set, slot_index, topic }
    }

    /// A copy of the message.
    pub fn duplicate(&self) -> (r: Self)
        ensures
            r@ == self@,
    {
        Msg {
            sender_id: self.sender_id.duplicate(),
            quorum_set: self.quorum_set.duplicate(),
            slot_index: self.slot_index,
            topic: self.topic.duplicate(),
        }
    }

    /// Whether the two messages are equal in every part.
    pub fn same(&self, other: &Self) -> (b: bool)
        ensures
            b == (self@ == other@),
    {
        self.sender_id.same(&other.sender_id) && self.quorum_set.same(&other.quorum_set)
            && self.slot_index == other.slot_index && self.topic.same(&other.topic)
    }
}

} // verus!
