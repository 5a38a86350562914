//! What a message says: the questions that federated voting asks of it, and
//! the order in which a sender's messages follow one another.

use crate::ballot::{
    ballot_le, lemma_ballot_le_transitive, lemma_ballot_lt_total, Ballot, BallotSet, BallotView,
    INFINITY,
};
use crate::msg::{
    option_view, CommitView, ExternalizeView, Msg, NominatePayload, NominateView, PreparePayload,
    PrepareView, Topic, TopicView,
};
use crate::value::{keys_of, Rank, Value};
use crate::value_set::{compare_value_lists, ValueSet};
use vstd::prelude::*;

verus! {

/// The ballot with counter `n` and values `x`.
pub open spec fn ballot_at(n: u32, x: Seq<Seq<u8>>) -> BallotView {
    BallotView { n, x }
}

/// `set` with `b` added, unless `b` has counter zero.
pub open spec fn add_nonzero(set: Set<BallotView>, b: BallotView) -> Set<BallotView> {
    if b.n > 0 {
        set.insert(b)
    } else {
        set
    }
}

/// `set` with `b` added, if there is one and its counter is not zero.
pub open spec fn add_present(set: Set<BallotView>, b: Option<BallotView>) -> Set<BallotView> {
    match b {
        Some(b) => add_nonzero(set, b),
        None => set,
    }
}

/// The values a nominate statement votes for or accepts.
pub open spec fn nominated(n: NominateView) -> Set<Seq<u8>> {
    n.x.union(n.y)
}

/// The values the topic votes to nominate or accepts as nominated; none
/// where the topic has no nominate part.
pub open spec fn votes_or_accepts_nominated(t: TopicView) -> Option<Set<Seq<u8>>> {
    match t {
        TopicView::Nominate(n) => Some(nominated(n)),
        TopicView::NominatePrepare(n, _) => Some(nominated(n)),
        _ => None,
    }
}

/// The values the topic accepts as nominated; none where the topic has no
/// nominate part.
pub open spec fn accepts_nominated(t: TopicView) -> Option<Set<Seq<u8>>> {
    match t {
        TopicView::Nominate(n) => Some(n.y),
        TopicView::NominatePrepare(n, _) => Some(n.y),
        _ => None,
    }
}

/// The ballots a prepare statement accepts as prepared.
pub open spec fn prepare_accepts(p: PrepareView) -> Set<BallotView> {
    add_present(add_present(Set::empty(), p.p), p.pp)
}

/// The ballots a prepare statement votes or accepts as prepared.
pub open spec fn prepare_votes(p: PrepareView) -> Set<BallotView> {
    add_nonzero(
        add_nonzero(add_nonzero(prepare_accepts(p), p.b), ballot_at(p.cn, p.b.x)),
        ballot_at(p.hn, p.b.x),
    )
}

/// The ballots a commit statement accepts as prepared.
pub open spec fn commit_accepts(c: CommitView) -> Set<BallotView> {
    add_nonzero(add_nonzero(Set::empty(), ballot_at(c.pn, c.b.x)), ballot_at(c.hn, c.b.x))
}

/// The ballots a commit statement votes or accepts as prepared.
pub open spec fn commit_votes(c: CommitView) -> Set<BallotView> {
    add_nonzero(add_nonzero(commit_accepts(c), c.b), ballot_at(c.cn, c.b.x))
}

/// The ballots an externalize statement accepts as prepared.
pub open spec fn externalize_accepts(e: ExternalizeView) -> Set<BallotView> {
    Set::empty().insert(ballot_at(INFINITY, e.c.x))
}

/// The ballots an externalize statement votes or accepts as prepared.
pub open spec fn externalize_votes(e: ExternalizeView) -> Set<BallotView> {
    add_nonzero(add_nonzero(externalize_accepts(e), e.c), ballot_at(e.hn, e.c.x))
}

/// The ballots the topic votes to prepare or accepts as prepared.
pub open spec fn votes_or_accepts_prepared(t: TopicView) -> Set<BallotView> {
    match t {
        TopicView::Nominate(_) => Set::empty(),
        TopicView::NominatePrepare(_, p) => prepare_votes(p),
        TopicView::Prepare(p) => prepare_votes(p),
        TopicView::Commit(c) => commit_votes(c),
        TopicView::Externalize(e) => externalize_votes(e),
    }
}

/// The ballots the topic accepts as prepared.
pub open spec fn accepts_prepared(t: TopicView) -> Set<BallotView> {
    match t {
        TopicView::Nominate(_) => Set::empty(),
        TopicView::NominatePrepare(_, p) => prepare_accepts(p),
        TopicView::Prepare(p) => prepare_accepts(p),
        TopicView::Commit(c) => commit_accepts(c),
        TopicView::Externalize(e) => externalize_accepts(e),
    }
}

/// The counters common to `[lo1, hi1]` and `[lo2, hi2]`, if there are any.
pub open spec fn window(lo1: u32, hi1: u32, lo2: u32, hi2: u32) -> Option<(u32, u32)> {
    let lo = if lo1 >= lo2 {
        lo1
    } else {
        lo2
    };
    let hi = if hi1 <= hi2 {
        hi1
    } else {
        hi2
    };
    if lo <= hi {
        Some((lo, hi))
    } else {
        None
    }
}

/// The part of `[min, max]` in which the topic accepts ballots with the
/// values `values` as committed.
pub open spec fn accepts_commits(t: TopicView, values: Seq<Seq<u8>>, min: u32, max: u32) -> Option<
    (u32, u32),
> {
    match t {
        TopicView::Commit(c) => if c.b.x == values {
            window(min, max, c.cn, c.hn)
        } else {
            None
        },
        TopicView::Externalize(e) => if e.c.x == values {
            window(min, max, e.c.n, INFINITY)
        } else {
            None
        },
        _ => None,
    }
}

/// The part of `[min, max]` in which a prepare statement votes to commit
/// ballots with the values `values`.
pub open spec fn prepare_commits(p: PrepareView, values: Seq<Seq<u8>>, min: u32, max: u32) -> Option<
    (u32, u32),
> {
    if p.b.x == values && p.cn > 0 {
        window(min, max, p.cn, p.hn)
    } else {
        None
    }
}

/// The part of `[min, max]` in which the topic votes to commit ballots with
/// the values `values`, or accepts them as committed.
pub open spec fn votes_or_accepts_commits(
    t: TopicView,
    values: Seq<Seq<u8>>,
    min: u32,
    max: u32,
) -> Option<(u32, u32)> {
    match t {
        TopicView::NominatePrepare(_, p) => prepare_commits(p, values, min, max),
        TopicView::Prepare(p) => prepare_commits(p, values, min, max),
        _ => accepts_commits(t, values, min, max),
    }
}

/// How far the voting has come: nominate, prepare, commit, externalize.
pub open spec fn stage(t: TopicView) -> nat {
    match t {
        TopicView::Nominate(_) => 0,
        TopicView::NominatePrepare(_, _) => 1,
        TopicView::Prepare(_) => 1,
        TopicView::Commit(_) => 2,
        TopicView::Externalize(_) => 3,
    }
}

/// `a` is absent, or both are present and `a` is not above `b`.
pub open spec fn option_le(a: Option<BallotView>, b: Option<BallotView>) -> bool {
    match a {
        None => true,
        Some(x) => match b {
            None => false,
            Some(y) => ballot_le(x, y),
        },
    }
}

/// The nominate statement `new` takes nothing back from `old`.
pub open spec fn nominate_grows(new: NominateView, old: NominateView) -> bool {
    nominated(old).subset_of(nominated(new)) && old.y.subset_of(new.y)
}

/// The prepare statement `new` takes nothing back from `old`.
pub open spec fn prepare_grows(new: PrepareView, old: PrepareView) -> bool {
    new.b.n >= old.b.n && new.cn >= old.cn && new.hn >= old.hn && option_le(old.p, new.p)
}

/// Within one stage, `new` takes nothing back from `old`.
pub open spec fn grows(new: TopicView, old: TopicView) -> bool {
    match (new, old) {
        (TopicView::Nominate(n), TopicView::Nominate(o)) => nominate_grows(n, o),
        (TopicView::NominatePrepare(n, p), TopicView::NominatePrepare(o, q)) => nominate_grows(n, o)
            && prepare_grows(p, q),
        (TopicView::NominatePrepare(_, _), TopicView::Prepare(_)) => false,
        (TopicView::Prepare(p), TopicView::NominatePrepare(_, q)) => prepare_grows(p, q),
        (TopicView::Prepare(p), TopicView::Prepare(q)) => prepare_grows(p, q),
        (TopicView::Commit(c), TopicView::Commit(d)) => c.b.n >= d.b.n && c.pn >= d.pn && c.cn
            >= d.cn && c.hn >= d.hn,
        (TopicView::Externalize(e), TopicView::Externalize(f)) => e.c.n >= f.c.n && e.hn >= f.hn,
        _ => false,
    }
}

/// `new` is not older than `old`: it is of a later stage, or of the same
/// stage and takes nothing back.
pub open spec fn not_older(new: TopicView, old: TopicView) -> bool {
    stage(new) > stage(old) || (stage(new) == stage(old) && grows(new, old))
}

/// `new` replaces `old`: it is not older and says something else.
pub open spec fn supersedes(new: TopicView, old: TopicView) -> bool {
    not_older(new, old) && new != old
}

/// Every topic is not older than itself.
pub proof fn lemma_not_older_reflexive(t: TopicView)
    ensures
        not_older(t, t),
{
}

/// If `c` is not older than `b` and `b` not older than `a`, then `c` is not
/// older than `a`.
pub proof fn lemma_not_older_transitive(a: TopicView, b: TopicView, c: TopicView)
    requires
        not_older(b, a),
        not_older(c, b),
    ensures
        not_older(c, a),
{
    if stage(a) == stage(b) && stage(b) == stage(c) {
        match (a, b, c) {
            (TopicView::NominatePrepare(_, p), TopicView::NominatePrepare(_, q), TopicView::NominatePrepare(_, r)) => {
                lemma_option_le_transitive(p.p, q.p, r.p);
            },
            (TopicView::NominatePrepare(_, p), TopicView::NominatePrepare(_, q), TopicView::Prepare(r)) => {
                lemma_option_le_transitive(p.p, q.p, r.p);
            },
            (TopicView::NominatePrepare(_, p), TopicView::Prepare(q), TopicView::Prepare(r)) => {
                lemma_option_le_transitive(p.p, q.p, r.p);
            },
            (TopicView::Prepare(p), TopicView::Prepare(q), TopicView::Prepare(r)) => {
                lemma_option_le_transitive(p.p, q.p, r.p);
            },
            _ => {},
        }
    }
}

/// `option_le` is transitive.
pub proof fn lemma_option_le_transitive(
    a: Option<BallotView>,
    b: Option<BallotView>,
    c: Option<BallotView>,
)
    requires
        option_le(a, b),
        option_le(b, c),
    ensures
        option_le(a, c),
{
    if a is Some && b is Some && c is Some {
        lemma_ballot_le_transitive(a->0, b->0, c->0);
    }
}

/// Nothing replaces itself.
pub proof fn lemma_supersedes_irreflexive(t: TopicView)
    ensures
        !supersedes(t, t),
{
}

/// Adds `b` to `set` unless its counter is zero.
fn push_nonzero<V: Value>(set: &mut BallotSet<V>, b: Ballot<V>)
    ensures
        final(set)@ == add_nonzero(old(set)@, b@),
{
    if b.N > 0 {
        set.insert(b);
    }
}

/// Adds a copy of `b` to `set` if there is one and its counter is not zero.
fn push_present<V: Value>(set: &mut BallotSet<V>, b: &Option<Ballot<V>>)
    ensures
        final(set)@ == add_present(old(set)@, option_view(*b)),
{
    match b {
        Some(b) => push_nonzero(set, b.duplicate()),
        None => {},
    }
}

/// Computes [`window`].
pub fn intersect_windows(lo1: u32, hi1: u32, lo2: u32, hi2: u32) -> (r: Option<(u32, u32)>)
    ensures
        r == window(lo1, hi1, lo2, hi2),
{
    let lo = if lo1 >= lo2 {
        lo1
    } else {
        lo2
    };
    let hi = if hi1 <= hi2 {
        hi1
    } else {
        hi2
    };
    if lo <= hi {
        Some((lo, hi))
    } else {
        None
    }
}

/// Whether `a` is absent or not above `b`.
fn option_not_above<V: Value>(a: &Option<Ballot<V>>, b: &Option<Ballot<V>>) -> (r: bool)
    ensures
        r == option_le(option_view(*a), option_view(*b)),
{
    match a {
        None => true,
        Some(x) => match b {
            None => false,
            Some(y) => {
                proof {
                    lemma_ballot_lt_total(x@, y@);
                }
                match x.compare(y) {
                    Rank::Above => false,
                    _ => true,
                }
            },
        },
    }
}

impl<V: Value> NominatePayload<V> {
    /// The values the statement votes for or accepts.
    pub fn nominated(&self) -> (r: ValueSet<V>)
        ensures
            r.wf(),
            r@ == nominated(self@),
    {
        self.X.union(&self.Y)
    }

    /// Whether `self` takes nothing back from `old`.
    pub fn grows_from(&self, old: &Self) -> (b: bool)
        ensures
            b == nominate_grows(self@, old@),
    {
        let mine = self.nominated();
        let theirs = old.nominated();
        theirs.is_subset(&mine) && old.Y.is_subset(&self.Y)
    }
}

impl<V: Value> PreparePayload<V> {
    /// The ballots the statement accepts as prepared.
    pub fn accepts(&self) -> (r: BallotSet<V>)
        ensures
            r@ == prepare_accepts(self@),
    {
        let mut r = BallotSet::new();
        push_present(&mut r, &self.P);
        push_present(&mut r, &self.PP);
        r
    }

    /// The ballots the statement votes or accepts as prepared.
    pub fn votes(&self) -> (r: BallotSet<V>)
        ensures
            r@ == prepare_votes(self@),
    {
        let mut r = self.accepts();
        push_nonzero(&mut r, self.B.duplicate());
        push_nonzero(&mut r, Ballot::new(self.CN, self.B.X.as_slice()));
        push_nonzero(&mut r, Ballot::new(self.HN, self.B.X.as_slice()));
        r
    }

    /// The part of `[min, max]` in which the statement votes to commit
    /// ballots with the values `values`.
    pub fn commits(&self, values: &Vec<V>, min: u32, max: u32) -> (r: Option<(u32, u32)>)
        ensures
            r == prepare_commits(self@, keys_of(values@), min, max),
    {
        if self.CN > 0 && compare_value_lists(&self.B.X, values) == Rank::Same {
            intersect_windows(min, max, self.CN, self.HN)
        } else {
            None
        }
    }

    /// Whether `self` takes nothing back from `old`.
    pub fn grows_from(&self, old: &Self) -> (b: bool)
        ensures
            b == prepare_grows(self@, old@),
    {
        self.B.N >= old.B.N && self.CN >= old.CN && self.HN >= old.HN && option_not_above(
            &old.P,
            &self.P,
        )
    }
}

impl<V: Value> Topic<V> {
    /// Whether `self` is of a later stage than `old`, or of the same stage
    /// and takes nothing back.
    pub fn is_not_older(&self, old: &Self) -> (b: bool)
        ensures
            b == not_older(self@, old@),
    {
        match self {
            Topic::Nominate(n) => match old {
                Topic::Nominate(o) => n.grows_from(o),
                _ => false,
            },
            Topic::NominatePrepare(n, p) => match old {
                Topic::Nominate(_) => true,
                Topic::NominatePrepare(o, q) => n.grows_from(o) && p.grows_from(q),
                _ => false,
            },
            Topic::Prepare(p) => match old {
                Topic::Nominate(_) => true,
                Topic::NominatePrepare(_, q) => p.grows_from(q),
                Topic::Prepare(q) => p.grows_from(q),
                _ => false,
            },
            Topic::Commit(c) => match old {
                Topic::Commit(d) => c.B.N >= d.B.N && c.PN >= d.PN && c.CN >= d.CN && c.HN >= d.HN,
                Topic::Externalize(_) => false,
                _ => true,
            },
            Topic::Externalize(e) => match old {
                Topic::Externalize(f) => e.C.N >= f.C.N && e.HN >= f.HN,
                _ => true,
            },
        }
    }

    /// Whether `self` replaces `old`.
    pub fn supersedes(&self, old: &Self) -> (b: bool)
        ensures
            b == supersedes(self@, old@),
    {
        self.is_not_older(old) && !self.same(old)
    }
}

impl<V: Value> Msg<V> {
    /// The values the message votes to nominate or accepts as nominated.
    pub fn votes_or_accepts_nominated(&self) -> (r: Option<ValueSet<V>>)
        ensures
            match r {
                Some(s) => s.wf() && votes_or_accepts_nominated(self@.topic) == Some(s@),
                None => votes_or_accepts_nominated(self@.topic) is None,
            },
    {
        match &self.topic {
            Topic::Nominate(n) => Some(n.nominated()),
            Topic::NominatePrepare(n, _) => Some(n.nominated()),
            _ => None,
        }
    }

    /// The values the message accepts as nominated.
    pub fn accepts_nominated(&self) -> (r: Option<ValueSet<V>>)
        ensures
            match r {
                Some(s) => s.wf() && accepts_nominated(self@.topic) == Some(s@),
                None => accepts_nominated(self@.topic) is None,
            },
    {
        match &self.topic {
            Topic::Nominate(n) => Some(n.Y.duplicate()),
            Topic::NominatePrepare(n, _) => Some(n.Y.duplicate()),
            _ => None,
        }
    }

    /// The ballots the message votes to prepare or accepts as prepared.
    pub fn votes_or_accepts_prepared(&self) -> (r: BallotSet<V>)
        ensures
            r@ == votes_or_accepts_prepared(self@.topic),
    {
        match &self.topic {
            Topic::Nominate(_) => BallotSet::new(),
            Topic::NominatePrepare(_, p) => p.votes(),
            Topic::Prepare(p) => p.votes(),
            Topic::Commit(c) => {
                let mut r = BallotSet::new();
                push_nonzero(&mut r, Ballot::new(c.PN, c.B.X.as_slice()));
                push_nonzero(&mut r, Ballot::new(c.HN, c.B.X.as_slice()));
                push_nonzero(&mut r, c.B.duplicate());
                push_nonzero(&mut r, Ballot::new(c.CN, c.B.X.as_slice()));
                r
            },
            Topic::Externalize(e) => {
                let mut r = BallotSet::new();
                r.insert(Ballot::new(INFINITY, e.C.X.as_slice()));
                push_nonzero(&mut r, e.C.duplicate());
                push_nonzero(&mut r, Ballot::new(e.HN, e.C.X.as_slice()));
                r
            },
        }
    }

    /// The ballots the message accepts as prepared.
    pub fn accepts_prepared(&self) -> (r: BallotSet<V>)
        ensures
            r@ == accepts_prepared(self@.topic),
    {
        match &self.topic {
            Topic::Nominate(_) => BallotSet::new(),
            Topic::NominatePrepare(_, p) => p.accepts(),
            Topic::Prepare(p) => p.accepts(),
            Topic::Commit(c) => {
                let mut r = BallotSet::new();
                push_nonzero(&mut r, Ballot::new(c.PN, c.B.X.as_slice()));
                push_nonzero(&mut r, Ballot::new(c.HN, c.B.X.as_slice()));
                r
            },
            Topic::Externalize(e) => {
                let mut r = BallotSet::new();
                r.insert(Ballot::new(INFINITY, e.C.X.as_slice()));
                r
            },
        }
    }

    /// The part of `[min, max]` in which the message accepts ballots with
    /// the values `values` as committed.
    pub fn accepts_commits(&self, values: &Vec<V>, min: u32, max: u32) -> (r: Option<(u32, u32)>)
        ensures
            r == accepts_commits(self@.topic, keys_of(values@), min, max),
    {
        match &self.topic {
            Topic::Commit(c) => {
                if compare_value_lists(&c.B.X, values) == Rank::Same {
                    intersect_windows(min, max, c.CN, c.HN)
                } else {
                    None
                }
            },
            Topic::Externalize(e) => {
                if compare_value_lists(&e.C.X, values) == Rank::Same {
                    intersect_windows(min, max, e.C.N, INFINITY)
                } else {
                    None
                }
            },
            _ => None,
        }
    }

    /// The part of `[min, max]` in which the message votes to commit ballots
    /// with the values `values`, or accepts them as committed.
    pub fn votes_or_accepts_commits(&self, values: &Vec<V>, min: u32, max: u32) -> (r: Option<
        (u32, u32),
    >)
        ensures
            r == votes_or_accepts_commits(self@.topic, keys_of(values@), min, max),
    {
        match &self.topic {
            Topic::NominatePrepare(_, p) => p.commits(values, min, max),
            Topic::Prepare(p) => p.commits(values, min, max),
            _ => self.accepts_commits(values, min, max),
        }
    }
}

} // verus!
