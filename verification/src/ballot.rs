//! Ballots: a counter and the list of values voted on.

use crate::value::{
    keys_lt, keys_of, lemma_keys_lt_irreflexive, lemma_keys_lt_total, lemma_keys_lt_transitive,
    Rank, Value,
};
use crate::value_set::{
    compare_value_lists, lemma_keys_of_push, lemma_marked_filter, lemma_marked_push,
    lemma_push_to_set, marked,
    replicate_values,
};
use vstd::prelude::*;

verus! {

/// The counter that stands for "every counter from here on".
pub const INFINITY: u32 = 0xffff_ffff;

/// A ballot: a counter `N` and a list of values `X`.
///
/// Counter zero marks the ballot that stands for "none".
#[allow(non_snake_case)]
pub struct Ballot<V: Value> {
    /// The counter.
    pub N: u32,
    /// The values, in the order given.
    pub X: Vec<V>,
}

/// The mathematical content of a [`Ballot`].
pub struct BallotView {
    pub n: u32,
    pub x: Seq<Seq<u8>>,
}

impl<V: Value> View for Ballot<V> {
    type V = BallotView;

    open spec fn view(&self) -> BallotView {
        BallotView { n: self.N, x: keys_of(self.X@) }
    }
}

/// Strict order on ballots: by counter first, then by value list.
pub open spec fn ballot_lt(a: BallotView, b: BallotView) -> bool {
    a.n < b.n || (a.n == b.n && keys_lt(a.x, b.x))
}

/// `a` is below `b` or equal to it.
pub open spec fn ballot_le(a: BallotView, b: BallotView) -> bool {
    a == b || ballot_lt(a, b)
}

/// Where `a` stands relative to `b` in the order on ballots.
pub open spec fn ballot_rank(a: BallotView, b: BallotView) -> Rank {
    if a == b {
        Rank::Same
    } else if ballot_lt(a, b) {
        Rank::Below
    } else {
        Rank::Above
    }
}

/// Two ballots are compatible when they carry the same values.
pub open spec fn compatible(a: BallotView, b: BallotView) -> bool {
    a.x == b.x
}

/// Two ballots are equal, or exactly one is below the other.
pub proof fn lemma_ballot_lt_total(a: BallotView, b: BallotView)
    ensures
        a == b || ballot_lt(a, b) || ballot_lt(b, a),
        !(ballot_lt(a, b) && ballot_lt(b, a)),
        !ballot_lt(a, a),
{
    lemma_keys_lt_total(a.x, b.x);
    lemma_keys_lt_irreflexive(a.x);
}

/// The order on ballots is transitive.
pub proof fn lemma_ballot_lt_transitive(a: BallotView, b: BallotView, c: BallotView)
    requires
        ballot_lt(a, b),
        ballot_lt(b, c),
    ensures
        ballot_lt(a, c),
{
    if a.n == b.n && b.n == c.n {
        lemma_keys_lt_transitive(a.x, b.x, c.x);
    }
}

/// `ballot_le` is transitive.
pub proof fn lemma_ballot_le_transitive(a: BallotView, b: BallotView, c: BallotView)
    requires
        ballot_le(a, b),
        ballot_le(b, c),
    ensures
        ballot_le(a, c),
{
    if a != b && b != c {
        lemma_ballot_lt_transitive(a, b, c);
    }
}

impl<V: Value> Ballot<V> {
    /// The ballot with counter `counter` and the values of `values`.
    pub fn new(counter: u32, values: &[V]) -> (r: Self)
        ensures
            r@ == (BallotView { n: counter, x: keys_of(values@) }),
    {
        let mut x: Vec<V> = Vec::new();
        let mut i: usize = 0;
        while i < values.len()
            invariant
                i <= values.len(),
                keys_of(x@) == keys_of(values@).take(i as int),
            decreases values.len() - i,
        {
            let ghost held = x@;
            x.push(values[i].replicate());
            proof {
                lemma_keys_of_push(held, x@[i as int]);
                assert(keys_of(values@).take(i + 1) =~= keys_of(values@).take(i as int).push(
                    keys_of(values@)[i as int],
                ));
            }
            i = i + 1;
        }
        assert(keys_of(values@).take(i as int) =~= keys_of(values@));
        Ballot { N: counter, X: x }
    }

    /// Whether this is the ballot that stands for "none".
    pub fn is_zero(&self) -> (b: bool)
        ensures
            b == (self@.n == 0),
    {
        self.N == 0
    }

    /// A copy of the ballot.
    pub fn duplicate(&self) -> (r: Self)
        ensures
            r@ == self@,
    {
        Ballot { N: self.N, X: replicate_values(&self.X) }
    }

    /// Where `self` stands relative to `other` in the order on ballots.
    pub fn compare(&self, other: &Self) -> (r: Rank)
        ensures
            r == ballot_rank(self@, other@),
    {
        proof {
            lemma_keys_lt_total(self@.x, other@.x);
        }
        if self.N < other.N {
            Rank::Below
        } else if self.N > other.N {
            Rank::Above
        } else {
            compare_value_lists(&self.X, &other.X)
        }
    }

    /// Whether the two ballots are equal.
    pub fn same(&self, other: &Self) -> (b: bool)
        ensures
            b == (self@ == other@),
    {
        self.compare(other) == Rank::Same
    }

    /// Whether the two ballots carry the same values.
    pub fn is_compatible(&self, other: &Self) -> (b: bool)
        ensures
            b == compatible(self@, other@),
    {
        compare_value_lists(&self.X, &other.X) == Rank::Same
    }
}

/// The views of a list of ballots, in the same order.
pub open spec fn ballots_of<V: Value>(ballots: Seq<Ballot<V>>) -> Seq<BallotView> {
    Seq::new(ballots.len(), |i: int| ballots[i]@)
}

/// The views of a list with one more ballot at its end.
pub proof fn lemma_ballots_of_push<V: Value>(ballots: Seq<Ballot<V>>, b: Ballot<V>)
    ensures
        ballots_of(ballots.push(b)) == ballots_of(ballots).push(b@),
{
    assert(ballots_of(ballots.push(b)) =~= ballots_of(ballots).push(b@));
}

/// Whether some ballot of `set` carries the values of `b` with a counter at
/// least that of `b`: a statement about such a ballot is one about `b` too.
pub open spec fn covers(set: Set<BallotView>, b: BallotView) -> bool {
    exists|c: BallotView| #[trigger] set.contains(c) && c.x == b.x && c.n >= b.n
}

/// `m` is a member of `set` and no member is above it.
pub open spec fn is_highest(set: Set<BallotView>, m: BallotView) -> bool {
    set.contains(m) && forall|c: BallotView| #[trigger] set.contains(c) ==> ballot_le(c, m)
}

/// A set has at most one highest member.
pub proof fn lemma_highest_unique(set: Set<BallotView>, a: BallotView, b: BallotView)
    requires
        is_highest(set, a),
        is_highest(set, b),
    ensures
        a == b,
{
    lemma_ballot_lt_total(a, b);
}

/// A finite set of ballots.
pub struct BallotSet<V: Value> {
    items: Vec<Ballot<V>>,
}

impl<V: Value> View for BallotSet<V> {
    type V = Set<BallotView>;

    open spec fn view(&self) -> Set<BallotView> {
        self.ballots().to_set()
    }
}

impl<V: Value> BallotSet<V> {
    /// The members in the order in which they were added.
    pub closed spec fn ballots(&self) -> Seq<BallotView> {
        ballots_of(self.items@)
    }

    /// No ballot is held twice. This holds of every set that exists while
    /// the program runs.
    #[verifier::type_invariant]
    pub open spec fn wf(&self) -> bool {
        self.ballots().no_duplicates()
    }

    /// The empty set.
    pub fn new() -> (r: Self)
        ensures
            r.wf(),
            r@ == Set::<BallotView>::empty(),
            r.ballots().len() == 0,
    {
        let r = BallotSet { items: Vec::new() };
        assert(r.ballots() =~= Seq::<BallotView>::empty());
        assert(r@ =~= Set::<BallotView>::empty());
        r
    }

    /// The number of members.
    pub fn len(&self) -> (n: usize)
        ensures
            n == self.ballots().len(),
            n == self@.len(),
            self.wf(),
    {
        proof {
            use_type_invariant(self);
            self.ballots().unique_seq_to_set();
        }
        self.items.len()
    }

    /// Whether the set has no member.
    pub fn is_empty(&self) -> (b: bool)
        ensures
            b == (self.ballots().len() == 0),
            b == (self@ == Set::<BallotView>::empty()),
    {
        proof {
            if self.ballots().len() == 0 {
                assert(self@ =~= Set::<BallotView>::empty());
            } else {
                assert(self.ballots().contains(self.ballots()[0]));
                assert(self@.contains(self.ballots()[0]));
            }
        }
        self.items.len() == 0
    }

    /// The member at place `i`.
    pub fn get(&self, i: usize) -> (b: &Ballot<V>)
        requires
            i < self.ballots().len(),
        ensures
            b@ == self.ballots()[i as int],
            self@.contains(b@),
    {
        assert(self.ballots().contains(self.ballots()[i as int]));
        &self.items[i]
    }

    /// Whether `b` is a member.
    pub fn contains(&self, b: &Ballot<V>) -> (r: bool)
        ensures
            r == self@.contains(b@),
    {
        let mut i: usize = 0;
        while i < self.items.len()
            invariant
                i <= self.items.len(),
                forall|j: int| 0 <= j < i ==> self.ballots()[j] != b@,
            decreases self.items.len() - i,
        {
            if self.items[i].same(b) {
                assert(self.ballots()[i as int] == b@);
                assert(self.ballots().contains(b@));
                return true;
            }
            i = i + 1;
        }
        false
    }

    /// Whether some member carries the values of `b` with a counter at least
    /// that of `b`.
    pub fn covers(&self, b: &Ballot<V>) -> (r: bool)
        ensures
            r == covers(self@, b@),
    {
        let mut i: usize = 0;
        while i < self.items.len()
            invariant
                i <= self.items.len(),
                forall|j: int|
                    0 <= j < i ==> !(#[trigger] self.ballots()[j].x == b@.x && self.ballots()[j].n
                        >= b@.n),
            decreases self.items.len() - i,
        {
            if self.items[i].N >= b.N && self.items[i].is_compatible(b) {
                assert(self.ballots().contains(self.ballots()[i as int]));
                assert(self@.contains(self.ballots()[i as int]));
                return true;
            }
            i = i + 1;
        }
        proof {
            if covers(self@, b@) {
                let c = choose|c: BallotView| #[trigger]
                    self@.contains(c) && c.x == b@.x && c.n >= b@.n;
                let j = choose|j: int| 0 <= j < self.ballots().len() && self.ballots()[j] == c;
                assert(self.ballots()[j].x == b@.x);
            }
        }
        false
    }

    /// Adds `b`; says whether it was new.
    pub fn insert(&mut self, b: Ballot<V>) -> (added: bool)
        ensures
            final(self).wf(),
            final(self)@ == old(self)@.insert(b@),
            added == !old(self)@.contains(b@),
    {
        proof {
            use_type_invariant(&*self);
        }
        if self.contains(&b) {
            assert(self@ =~= self@.insert(b@));
            return false;
        }
        let ghost before = self.items@;
        let mut taken = BallotSet::new();
        core::mem::swap(self, &mut taken);
        let mut items = taken.items;
        items.push(b);
        proof {
            lemma_ballots_of_push(before, b);
            lemma_push_to_set(ballots_of(before), b@);
            let after = ballots_of(items@);
            assert forall|i: int, j: int|
                0 <= i < after.len() && 0 <= j < after.len() && i != j implies after[i]
                != after[j] by {
                if i < before.len() {
                    assert(ballots_of(before).contains(ballots_of(before)[i]));
                }
                if j < before.len() {
                    assert(ballots_of(before).contains(ballots_of(before)[j]));
                }
            }
        }
        *self = BallotSet { items };
        true
    }

    /// A copy of the set.
    pub fn duplicate(&self) -> (r: Self)
        ensures
            r.wf(),
            r.ballots() == self.ballots(),
            r@ == self@,
    {
        proof {
            use_type_invariant(self);
        }
        let mut items: Vec<Ballot<V>> = Vec::new();
        let mut i: usize = 0;
        while i < self.items.len()
            invariant
                i <= self.items.len(),
                ballots_of(items@) == self.ballots().take(i as int),
            decreases self.items.len() - i,
        {
            let ghost held = items@;
            items.push(self.items[i].duplicate());
            proof {
                lemma_ballots_of_push(held, items@[i as int]);
                assert(self.ballots().take(i + 1) =~= self.ballots().take(i as int).push(
                    self.ballots()[i as int],
                ));
            }
            i = i + 1;
        }
        assert(self.ballots().take(i as int) =~= self.ballots());
        BallotSet { items }
    }

    /// The set of the ballots in `ballots`.
    pub fn from_vec(ballots: Vec<Ballot<V>>) -> (r: Self)
        ensures
            r.wf(),
            r@ == ballots_of(ballots@).to_set(),
    {
        let mut r = BallotSet::new();
        let mut i: usize = 0;
        while i < ballots.len()
            invariant
                i <= ballots.len(),
                r@ == ballots_of(ballots@).take(i as int).to_set(),
            decreases ballots.len() - i,
        {
            r.insert(ballots[i].duplicate());
            proof {
                let vs = ballots_of(ballots@);
                assert(vs.take(i + 1) =~= vs.take(i as int).push(vs[i as int]));
                lemma_push_to_set(vs.take(i as int), vs[i as int]);
            }
            i = i + 1;
        }
        assert(ballots_of(ballots@).take(i as int) =~= ballots_of(ballots@));
        proof {
            use_type_invariant(&r);
        }
        r
    }

    /// Whether every member of `self` is a member of `other`.
    pub fn is_subset(&self, other: &Self) -> (b: bool)
        ensures
            b == self@.subset_of(other@),
    {
        let mut i: usize = 0;
        while i < self.items.len()
            invariant
                i <= self.items.len(),
                forall|j: int| 0 <= j < i ==> other@.contains(#[trigger] self.ballots()[j]),
            decreases self.items.len() - i,
        {
            if !other.contains(&self.items[i]) {
                proof {
                    assert(self.ballots().contains(self.ballots()[i as int]));
                    assert(self@.contains(self.ballots()[i as int]));
                }
                return false;
            }
            i = i + 1;
        }
        true
    }

    /// Whether the two sets have the same members.
    pub fn same(&self, other: &Self) -> (b: bool)
        ensures
            b == (self@ == other@),
    {
        let b = self.is_subset(other) && other.is_subset(self);
        proof {
            if b {
                assert(self@ =~= other@);
            }
        }
        b
    }

    /// The members whose place is marked.
    pub fn retain_marked(&self, marks: &Vec<bool>) -> (r: Self)
        requires
            marks.len() == self.ballots().len(),
        ensures
            r.wf(),
            r@ == marked(self.ballots(), marks@),
    {
        let mut r = BallotSet::new();
        let mut i: usize = 0;
        let ghost src = self.ballots();
        proof {
            assert(marked(src.take(0), marks@.take(0)) =~= Set::<BallotView>::empty());
        }
        while i < self.items.len()
            invariant
                i <= self.items.len(),
                marks.len() == src.len(),
                src == self.ballots(),
                r@ == marked(src.take(i as int), marks@.take(i as int)),
            decreases self.items.len() - i,
        {
            proof {
                lemma_marked_push(src.take(i as int), marks@.take(i as int), src[i as int], marks[i as int]);
                assert(src.take(i + 1) =~= src.take(i as int).push(src[i as int]));
                assert(marks@.take(i + 1) =~= marks@.take(i as int).push(marks[i as int]));
            }
            if marks[i] {
                r.insert(self.items[i].duplicate());
            }
            i = i + 1;
        }
        proof {
            assert(src.take(i as int) =~= src);
            assert(marks@.take(i as int) =~= marks@);
            use_type_invariant(&r);
        }
        r
    }

    /// Adds every member of `other`.
    pub fn extend(&mut self, other: &Self)
        ensures
            final(self).wf(),
            final(self)@ == old(self)@.union(other@),
    {
        let mut i: usize = 0;
        proof {
            assert(self@ =~= old(self)@.union(other.ballots().take(0).to_set()));
        }
        while i < other.items.len()
            invariant
                i <= other.items.len(),
                self@ == old(self)@.union(other.ballots().take(i as int).to_set()),
            decreases other.items.len() - i,
        {
            self.insert(other.items[i].duplicate());
            proof {
                let bs = other.ballots();
                assert(bs.take(i + 1) =~= bs.take(i as int).push(bs[i as int]));
                lemma_push_to_set(bs.take(i as int), bs[i as int]);
                assert(self@ =~= old(self)@.union(bs.take(i + 1).to_set()));
            }
            i = i + 1;
        }
        assert(other.ballots().take(i as int) =~= other.ballots());
        proof {
            use_type_invariant(&*self);
        }
    }

    /// The set with the one member `b`.
    pub fn singleton(b: Ballot<V>) -> (r: Self)
        ensures
            r.wf(),
            r@ == Set::<BallotView>::empty().insert(b@),
    {
        let mut r = BallotSet::new();
        r.insert(b);
        r
    }

    /// The members that carry the values `values`.
    pub fn with_values(&self, values: &Vec<V>) -> (r: Self)
        ensures
            r.wf(),
            r@ == self@.filter(|c: BallotView| c.x == keys_of(values@)),
    {
        let n = self.items.len();
        let mut marks: Vec<bool> = Vec::new();
        let mut i: usize = 0;
        while i < n
            invariant
                i <= n,
                n == self.ballots().len(),
                n == self.items.len(),
                marks.len() == i,
                forall|j: int|
                    0 <= j < i ==> marks[j] == ((#[trigger] self.ballots()[j]).x == keys_of(values@)),
            decreases n - i,
        {
            let same = compare_value_lists(&self.items[i].X, values) == Rank::Same;
            marks.push(same);
            i = i + 1;
        }
        proof {
            lemma_marked_filter(
                self.ballots(),
                marks@,
                |c: BallotView| c.x == keys_of(values@),
            );
        }
        self.retain_marked(&marks)
    }

    /// The members of both `self` and `other`.
    pub fn intersection(&self, other: &Self) -> (r: Self)
        ensures
            r.wf(),
            r@ == self@.intersect(other@),
    {
        let n = self.items.len();
        let mut marks: Vec<bool> = Vec::new();
        let mut i: usize = 0;
        while i < n
            invariant
                i <= n,
                n == self.ballots().len(),
                n == self.items.len(),
                marks.len() == i,
                forall|j: int|
                    0 <= j < i ==> marks[j] == other@.contains(#[trigger] self.ballots()[j]),
            decreases n - i,
        {
            let inside = other.contains(&self.items[i]);
            marks.push(inside);
            i = i + 1;
        }
        proof {
            lemma_marked_filter(self.ballots(), marks@, |b: BallotView| other@.contains(b));
        }
        let r = self.retain_marked(&marks);
        assert(r@ =~= self@.intersect(other@));
        r
    }

    /// The highest member, if the set has one.
    pub fn highest(&self) -> (r: Option<Ballot<V>>)
        ensures
            match r {
                Some(m) => is_highest(self@, m@),
                None => self@ == Set::<BallotView>::empty(),
            },
    {
        if self.items.len() == 0 {
            assert(self.ballots() =~= Seq::<BallotView>::empty());
            assert(self@ =~= Set::<BallotView>::empty());
            return None;
        }
        let mut best: usize = 0;
        let mut i: usize = 1;
        while i < self.items.len()
            invariant
                1 <= i <= self.items.len(),
                best < i,
                forall|j: int| 0 <= j < i ==> ballot_le(#[trigger] self.ballots()[j], self.ballots()[best as int]),
            decreases self.items.len() - i,
        {
            if self.items[i].compare(&self.items[best]) == Rank::Above {
                proof {
                    let nb = self.ballots()[i as int];
                    let ob = self.ballots()[best as int];
                    lemma_ballot_lt_total(nb, ob);
                    assert forall|j: int| 0 <= j < i + 1 implies ballot_le(
                        #[trigger] self.ballots()[j],
                        nb,
                    ) by {
                        if j < i {
                            lemma_ballot_le_transitive(self.ballots()[j], ob, nb);
                        }
                    }
                }
                best = i;
            } else {
                proof {
                    lemma_ballot_lt_total(self.ballots()[i as int], self.ballots()[best as int]);
                }
            }
            i = i + 1;
        }
        let m = self.items[best].duplicate();
        proof {
            assert(self.ballots().contains(self.ballots()[best as int]));
            assert forall|c: BallotView| #[trigger] self@.contains(c) implies ballot_le(c, m@) by {
                let j = choose|j: int| 0 <= j < self.ballots().len() && self.ballots()[j] == c;
                assert(ballot_le(self.ballots()[j], m@));
            }
        }
        Some(m)
    }
}

/// The highest member of `set`, if it has one.
pub open spec fn highest_of(set: Set<BallotView>) -> Option<BallotView> {
    if exists|m: BallotView| is_highest(set, m) {
        Some(choose|m: BallotView| is_highest(set, m))
    } else {
        None
    }
}

/// The highest member of a set of ballots, if it has one.
pub fn highest_ballot<V: Value>(set: &BallotSet<V>) -> (r: Option<Ballot<V>>)
    ensures
        match r {
            Some(m) => highest_of(set@) == Some(m@),
            None => highest_of(set@) is None,
        },
{
    let r = set.highest();
    proof {
        if r is Some {
            let c = choose|c: BallotView| is_highest(set@, c);
            lemma_highest_unique(set@, r->0@, c);
        }
    }
    r
}

/// A finite set of ballots that is not empty has a highest member.
pub proof fn lemma_highest_exists(set: Set<BallotView>)
    requires
        set.finite(),
        set.len() > 0,
    ensures
        highest_of(set) is Some,
        is_highest(set, highest_of(set)->0),
    decreases set.len(),
{
    let x = set.choose();
    assert(set.contains(x));
    let rest = set.remove(x);
    if rest.len() == 0 {
        assert forall|c: BallotView| #[trigger] set.contains(c) implies ballot_le(c, x) by {
            if c != x {
                assert(rest.contains(c));
            }
        }
        assert(is_highest(set, x));
    } else {
        lemma_highest_exists(rest);
        let m = highest_of(rest)->0;
        lemma_ballot_lt_total(x, m);
        let top = if ballot_lt(m, x) {
            x
        } else {
            m
        };
        assert forall|c: BallotView| #[trigger] set.contains(c) implies ballot_le(c, top) by {
            if c != x {
                assert(rest.contains(c));
                assert(ballot_le(c, m));
                lemma_ballot_le_transitive(c, m, top);
            }
        }
        assert(is_highest(set, top));
    }
}

} // verus!
