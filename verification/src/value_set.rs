//! Finite sets of application values, kept in the order of their keys.

use crate::value::{
    compare_values, key_lt, keys_lt, keys_of, keys_rank, lemma_key_lt_irreflexive,
    lemma_key_lt_total, lemma_key_lt_transitive, lemma_keys_lt_total, Rank, Value,
};
use vstd::prelude::*;

verus! {

/// Every earlier key is strictly below every later one.
pub open spec fn strictly_sorted(keys: Seq<Seq<u8>>) -> bool {
    forall|i: int, j: int| 0 <= i < j < keys.len() ==> key_lt(#[trigger] keys[i], #[trigger] keys[j])
}

/// The members of `keys` in ascending order.
pub open spec fn sorted_keys(keys: Set<Seq<u8>>) -> Seq<Seq<u8>> {
    choose|s: Seq<Seq<u8>>| strictly_sorted(s) && s.to_set() == keys
}

/// A sorted list is fixed by the set of its members.
pub proof fn lemma_sorted_unique(a: Seq<Seq<u8>>, b: Seq<Seq<u8>>)
    requires
        strictly_sorted(a),
        strictly_sorted(b),
        a.to_set() == b.to_set(),
    ensures
        a == b,
    decreases a.len(),
{
    if a.len() == 0 {
        if b.len() > 0 {
            assert(b.to_set().contains(b[0]));
            assert(a.contains(b[0]));
        }
        assert(a =~= b);
    } else if b.len() == 0 {
        assert(a.to_set().contains(a[0]));
        assert(b.contains(a[0]));
    } else {
        assert(a.to_set().contains(a[0]));
        assert(b.contains(a[0]));
        assert(b.to_set().contains(b[0]));
        assert(a.contains(b[0]));
        let i = choose|i: int| 0 <= i < b.len() && b[i] == a[0];
        let j = choose|j: int| 0 <= j < a.len() && a[j] == b[0];
        lemma_key_lt_total(a[0], b[0]);
        if i > 0 && j > 0 {
            assert(key_lt(b[0], b[i]));
            assert(key_lt(a[0], a[j]));
        }
        assert(a[0] == b[0]) by {
            if i == 0 {
            } else if j == 0 {
            }
        }
        let a1 = a.drop_first();
        let b1 = b.drop_first();
        assert forall|k: Seq<u8>| a1.to_set().contains(k) == b1.to_set().contains(k) by {
            lemma_key_lt_irreflexive(a[0]);
            if a1.contains(k) {
                let m = choose|m: int| 0 <= m < a1.len() && a1[m] == k;
                assert(a[m + 1] == k);
                assert(key_lt(a[0], a[m + 1]));
                assert(a.to_set().contains(k));
                assert(b.contains(k));
                let n = choose|n: int| 0 <= n < b.len() && b[n] == k;
                assert(n != 0);
                assert(b1[n - 1] == k);
            }
            if b1.contains(k) {
                let m = choose|m: int| 0 <= m < b1.len() && b1[m] == k;
                assert(b[m + 1] == k);
                assert(key_lt(b[0], b[m + 1]));
                assert(b.to_set().contains(k));
                assert(a.contains(k));
                let n = choose|n: int| 0 <= n < a.len() && a[n] == k;
                assert(n != 0);
                assert(a1[n - 1] == k);
            }
        }
        assert(a1.to_set() =~= b1.to_set());
        assert(strictly_sorted(a1)) by {
            assert forall|x: int, y: int| 0 <= x < y < a1.len() implies key_lt(
                #[trigger] a1[x],
                #[trigger] a1[y],
            ) by {
                assert(key_lt(a[x + 1], a[y + 1]));
            }
        }
        assert(strictly_sorted(b1)) by {
            assert forall|x: int, y: int| 0 <= x < y < b1.len() implies key_lt(
                #[trigger] b1[x],
                #[trigger] b1[y],
            ) by {
                assert(key_lt(b[x + 1], b[y + 1]));
            }
        }
        lemma_sorted_unique(a1, b1);
        assert(a =~= seq![a[0]] + a1);
        assert(b =~= seq![b[0]] + b1);
    }
}

/// A sorted list is the ascending listing of its own members.
pub proof fn lemma_sorted_keys_of_sorted(a: Seq<Seq<u8>>)
    requires
        strictly_sorted(a),
    ensures
        sorted_keys(a.to_set()) == a,
{
    let s = sorted_keys(a.to_set());
    assert(strictly_sorted(s) && s.to_set() == a.to_set());
    lemma_sorted_unique(s, a);
}

/// A set of values, held in ascending key order without repetition.
pub struct ValueSet<V: Value> {
    items: Vec<V>,
}

impl<V: Value> View for ValueSet<V> {
    type V = Set<Seq<u8>>;

    /// The set of the members' keys.
    open spec fn view(&self) -> Set<Seq<u8>> {
        self.keys().to_set()
    }
}

impl<V: Value> ValueSet<V> {
    /// The members' keys in the order in which they are held.
    pub closed spec fn keys(&self) -> Seq<Seq<u8>> {
        keys_of(self.items@)
    }

    /// The members are held in strictly ascending key order. This holds of
    /// every set that exists while the program runs.
    #[verifier::type_invariant]
    pub open spec fn wf(&self) -> bool {
        strictly_sorted(self.keys())
    }

    /// The empty set.
    pub fn new() -> (r: Self)
        ensures
            r.wf(),
            r.keys() == Seq::<Seq<u8>>::empty(),
            r@ == Set::<Seq<u8>>::empty(),
    {
        let r = ValueSet { items: Vec::new() };
        assert(r.keys() =~= Seq::<Seq<u8>>::empty());
        assert(r@ =~= Set::<Seq<u8>>::empty());
        r
    }

    /// The number of members.
    pub fn len(&self) -> (n: usize)
        ensures
            n == self.keys().len(),
            n == self@.len(),
            self.wf(),
    {
        proof {
            use_type_invariant(self);
            self.lemma_keys_sorted();
        }
        self.items.len()
    }

    /// Whether the set has no member.
    pub fn is_empty(&self) -> (b: bool)
        ensures
            b == (self.keys().len() == 0),
            b == (self@ == Set::<Seq<u8>>::empty()),
    {
        proof {
            if self.keys().len() == 0 {
                assert(self@ =~= Set::<Seq<u8>>::empty());
            } else {
                assert(self.keys().contains(self.keys()[0]));
                assert(self@.contains(self.keys()[0]));
            }
        }
        self.items.len() == 0
    }

    /// The member at place `i` of the ascending order.
    pub fn get(&self, i: usize) -> (v: &V)
        requires
            i < self.keys().len(),
        ensures
            v.key() == self.keys()[i as int],
    {
        &self.items[i]
    }

    /// Whether a value with the key of `v` is a member.
    pub fn contains(&self, v: &V) -> (b: bool)
        ensures
            b == self@.contains(v.key()),
    {
        let mut i: usize = 0;
        while i < self.items.len()
            invariant
                i <= self.items.len(),
                forall|j: int| 0 <= j < i ==> self.keys()[j] != v.key(),
            decreases self.items.len() - i,
        {
            match compare_values(&self.items[i], v) {
                Rank::Same => {
                    assert(self.keys()[i as int] == v.key());
                    assert(self.keys().contains(v.key()));
                    return true;
                },
                _ => {},
            }
            i = i + 1;
        }
        false
    }

    /// Adds `v`; says whether it was new.
    pub fn insert(&mut self, v: V) -> (added: bool)
        ensures
            final(self).wf(),
            final(self)@ == old(self)@.insert(v.key()),
            added == !old(self)@.contains(v.key()),
    {
        proof {
            use_type_invariant(&*self);
        }
        let ghost k = v.key();
        let ghost before = self.keys();
        let mut p: usize = 0;
        let mut stop = false;
        while p < self.items.len() && !stop
            invariant
                p <= self.items.len(),
                self.keys() == before,
                strictly_sorted(before),
                k == v.key(),
                forall|j: int| 0 <= j < p ==> key_lt(#[trigger] before[j], k),
                stop ==> p < before.len() && key_lt(k, before[p as int]),
            decreases self.items.len() - p + (if stop { 0int } else { 1int }),
        {
            match compare_values(&self.items[p], &v) {
                Rank::Same => {
                    proof {
                        assert(before[p as int] == k);
                        assert(before.contains(k));
                        assert(self@ =~= self@.insert(k));
                    }
                    return false;
                },
                Rank::Above => {
                    proof {
                        lemma_key_lt_total(before[p as int], k);
                    }
                    stop = true;
                },
                Rank::Below => {
                    p = p + 1;
                },
            }
        }
        proof {
            assert forall|j: int| p <= j < before.len() implies key_lt(k, #[trigger] before[j]) by {
                if j > p {
                    assert(key_lt(before[p as int], before[j]));
                    lemma_key_lt_transitive(k, before[p as int], before[j]);
                }
            }
            assert forall|j: int| 0 <= j < before.len() implies before[j] != k by {
                lemma_key_lt_irreflexive(k);
            }
        }
        let mut taken = ValueSet::new();
        core::mem::swap(self, &mut taken);
        let mut items = taken.items;
        items.insert(p, v);
        assert(keys_of(items@) =~= before.insert(p as int, k));
        proof {
            let after = keys_of(items@);
            assert forall|i: int, j: int| 0 <= i < j < after.len() implies key_lt(
                #[trigger] after[i],
                #[trigger] after[j],
            ) by {
                if i < p && j > p {
                    assert(key_lt(before[i], before[j - 1]));
                } else if i < p && j < p {
                    assert(key_lt(before[i], before[j]));
                } else if i > p {
                    assert(key_lt(before[i - 1], before[j - 1]));
                }
            }
        }
        *self = ValueSet { items };
        proof {
            let after = self.keys();
            assert(after =~= before.insert(p as int, k));
            assert forall|i: int, j: int| 0 <= i < j < after.len() implies key_lt(
                #[trigger] after[i],
                #[trigger] after[j],
            ) by {
                if i < p && j > p {
                    assert(key_lt(before[i], before[j - 1]));
                } else if i < p && j < p {
                    assert(key_lt(before[i], before[j]));
                } else if i > p {
                    assert(key_lt(before[i - 1], before[j - 1]));
                }
            }
            assert forall|x: Seq<u8>| after.to_set().contains(x) == before.to_set().insert(
                k,
            ).contains(x) by {
                if after.contains(x) {
                    let m = choose|m: int| 0 <= m < after.len() && after[m] == x;
                    if m < p {
                        assert(before[m] == x);
                    } else if m > p {
                        assert(before[m - 1] == x);
                    }
                }
                if before.contains(x) {
                    let m = choose|m: int| 0 <= m < before.len() && before[m] == x;
                    if m < p {
                        assert(after[m] == x);
                    } else {
                        assert(after[m + 1] == x);
                    }
                }
                if x == k {
                    assert(after[p as int] == x);
                }
            }
            assert(self@ =~= old(self)@.insert(k));
            assert(!before.contains(k));
        }
        true
    }

    /// A copy of the set.
    pub fn duplicate(&self) -> (r: Self)
        ensures
            r.keys() == self.keys(),
            r@ == self@,
            r.wf(),
    {
        proof {
            use_type_invariant(self);
        }
        let mut items: Vec<V> = Vec::new();
        let mut i: usize = 0;
        while i < self.items.len()
            invariant
                i <= self.items.len(),
                keys_of(items@) == self.keys().take(i as int),
            decreases self.items.len() - i,
        {
            let ghost held = items@;
            items.push(self.items[i].replicate());
            proof {
                lemma_keys_of_push(held, items@[i as int]);
                assert(self.keys().take(i + 1) =~= self.keys().take(i as int).push(
                    self.keys()[i as int],
                ));
            }
            i = i + 1;
        }
        assert(self.keys().take(i as int) =~= self.keys());
        ValueSet { items }
    }

    /// The members in ascending order.
    pub fn to_vec(&self) -> (r: Vec<V>)
        ensures
            keys_of(r@) == self.keys(),
    {
        let d = self.duplicate();
        d.items
    }

    /// The set of the values in `values`.
    pub fn from_vec(values: Vec<V>) -> (r: Self)
        ensures
            r.wf(),
            r@ == keys_of(values@).to_set(),
    {
        let mut r = ValueSet::new();
        let mut i: usize = 0;
        while i < values.len()
            invariant
                i <= values.len(),
                r.wf(),
                r@ == keys_of(values@).take(i as int).to_set(),
            decreases values.len() - i,
        {
            let v = values[i].replicate();
            r.insert(v);
            proof {
                let ks = keys_of(values@);
                assert(ks.take(i + 1) =~= ks.take(i as int).push(ks[i as int]));
                lemma_push_to_set(ks.take(i as int), ks[i as int]);
            }
            i = i + 1;
        }
        assert(keys_of(values@).take(i as int) =~= keys_of(values@));
        r
    }

    /// Whether every member of `self` is a member of `other`.
    pub fn is_subset(&self, other: &Self) -> (b: bool)
        ensures
            b == self@.subset_of(other@),
    {
        let mut i: usize = 0;
        while i < self.items.len()
            invariant
                i <= self.items.len(),
                forall|j: int| 0 <= j < i ==> other@.contains(#[trigger] self.keys()[j]),
            decreases self.items.len() - i,
        {
            if !other.contains(&self.items[i]) {
                proof {
                    assert(self.keys().contains(self.keys()[i as int]));
                    assert(self@.contains(self.keys()[i as int]));
                }
                return false;
            }
            i = i + 1;
        }
        true
    }

    /// Whether the two sets have the same members.
    pub fn same(&self, other: &Self) -> (b: bool)
        ensures
            b == (self@ == other@),
    {
        let b = self.is_subset(other) && other.is_subset(self);
        proof {
            if b {
                assert(self@ =~= other@);
            }
        }
        b
    }

    /// The members of `self` or of `other`.
    pub fn union(&self, other: &Self) -> (r: Self)
        ensures
            r.wf(),
            r@ == self@.union(other@),
    {
        let mut r = self.duplicate();
        let mut i: usize = 0;
        while i < other.items.len()
            invariant
                i <= other.items.len(),
                r.wf(),
                r@ == self@.union(other.keys().take(i as int).to_set()),
            decreases other.items.len() - i,
        {
            let v = other.items[i].replicate();
            r.insert(v);
            proof {
                let ks = other.keys();
                assert(ks.take(i + 1) =~= ks.take(i as int).push(ks[i as int]));
                lemma_push_to_set(ks.take(i as int), ks[i as int]);
                assert(r@ =~= self@.union(ks.take(i + 1).to_set()));
            }
            i = i + 1;
        }
        proof {
            assert(other.keys().take(i as int) =~= other.keys());
            assert(self@.union(Seq::<Seq<u8>>::empty().to_set()) =~= self@);
        }
        r
    }

    /// The members of `self`, those of `other` kept or left out as `keep` says.
    fn select(&self, other: &Self, keep: bool) -> (r: Self)
        ensures
            r.wf(),
            r@ == self@.filter(|k: Seq<u8>| other@.contains(k) == keep),
    {
        proof {
            use_type_invariant(self);
        }
        let mut items: Vec<V> = Vec::new();
        let mut i: usize = 0;
        let ghost src = self.keys();
        let ghost want = |k: Seq<u8>| other@.contains(k) == keep;
        while i < self.items.len()
            invariant
                i <= self.items.len(),
                src == self.keys(),
                strictly_sorted(src),
                want == |k: Seq<u8>| other@.contains(k) == keep,
                strictly_sorted(keys_of(items@)),
                forall|m: int, j: int|
                    0 <= m < items@.len() && i <= j < src.len() ==> key_lt(
                        #[trigger] keys_of(items@)[m],
                        #[trigger] src[j],
                    ),
                keys_of(items@).to_set() == src.take(i as int).to_set().filter(want),
            decreases self.items.len() - i,
        {
            let ghost old_keys = keys_of(items@);
            let inside = other.contains(&self.items[i]);
            proof {
                assert(src.take(i + 1) =~= src.take(i as int).push(src[i as int]));
                lemma_push_to_set(src.take(i as int), src[i as int]);
            }
            if inside == keep {
                let ghost held = items@;
                items.push(self.items[i].replicate());
                proof {
                    let new_keys = keys_of(items@);
                    lemma_keys_of_push(held, items@[held.len() as int]);
                    assert(new_keys =~= old_keys.push(src[i as int]));
                    lemma_push_to_set(old_keys, src[i as int]);
                    assert forall|m: int, j: int|
                        0 <= m < new_keys.len() && i + 1 <= j < src.len() implies key_lt(
                        #[trigger] new_keys[m],
                        #[trigger] src[j],
                    ) by {
                        if m == old_keys.len() {
                            assert(key_lt(src[i as int], src[j]));
                        } else {
                            assert(new_keys[m] == old_keys[m]);
                        }
                    }
                    assert forall|x: int, y: int| 0 <= x < y < new_keys.len() implies key_lt(
                        #[trigger] new_keys[x],
                        #[trigger] new_keys[y],
                    ) by {
                        if y == old_keys.len() {
                            assert(new_keys[x] == old_keys[x]);
                            assert(key_lt(old_keys[x], src[i as int]));
                        } else {
                            assert(key_lt(old_keys[x], old_keys[y]));
                        }
                    }
                    assert(new_keys.to_set() =~= src.take(i + 1).to_set().filter(want));
                }
            } else {
                proof {
                    assert(old_keys.to_set() =~= src.take(i + 1).to_set().filter(want));
                }
            }
            i = i + 1;
        }
        proof {
            assert(src.take(i as int) =~= src);
        }
        ValueSet { items }
    }

    /// The members whose place in the ascending order is marked.
    pub fn retain_marked(&self, marks: &Vec<bool>) -> (r: Self)
        requires
            marks.len() == self.keys().len(),
        ensures
            r.wf(),
            r@ == marked(self.keys(), marks@),
    {
        proof {
            use_type_invariant(self);
        }
        let mut items: Vec<V> = Vec::new();
        let mut i: usize = 0;
        let ghost src = self.keys();
        while i < self.items.len()
            invariant
                i <= self.items.len(),
                marks.len() == src.len(),
                src == self.keys(),
                strictly_sorted(src),
                strictly_sorted(keys_of(items@)),
                forall|m: int, j: int|
                    0 <= m < items@.len() && i <= j < src.len() ==> key_lt(
                        #[trigger] keys_of(items@)[m],
                        #[trigger] src[j],
                    ),
                keys_of(items@).to_set() == marked(src.take(i as int), marks@.take(i as int)),
            decreases self.items.len() - i,
        {
            let ghost old_keys = keys_of(items@);
            proof {
                lemma_marked_push(src.take(i as int), marks@.take(i as int), src[i as int], marks[i as int]);
                assert(src.take(i + 1) =~= src.take(i as int).push(src[i as int]));
                assert(marks@.take(i + 1) =~= marks@.take(i as int).push(marks[i as int]));
            }
            if marks[i] {
                let ghost held = items@;
                items.push(self.items[i].replicate());
                proof {
                    let new_keys = keys_of(items@);
                    lemma_keys_of_push(held, items@[held.len() as int]);
                    assert(new_keys =~= old_keys.push(src[i as int]));
                    lemma_push_to_set(old_keys, src[i as int]);
                    assert forall|m: int, j: int|
                        0 <= m < new_keys.len() && i + 1 <= j < src.len() implies key_lt(
                        #[trigger] new_keys[m],
                        #[trigger] src[j],
                    ) by {
                        if m == old_keys.len() {
                            assert(key_lt(src[i as int], src[j]));
                        } else {
                            assert(new_keys[m] == old_keys[m]);
                        }
                    }
                    assert forall|x: int, y: int| 0 <= x < y < new_keys.len() implies key_lt(
                        #[trigger] new_keys[x],
                        #[trigger] new_keys[y],
                    ) by {
                        if y == old_keys.len() {
                            assert(new_keys[x] == old_keys[x]);
                            assert(key_lt(old_keys[x], src[i as int]));
                        } else {
                            assert(key_lt(old_keys[x], old_keys[y]));
                        }
                    }
                }
            }
            i = i + 1;
        }
        proof {
            assert(src.take(i as int) =~= src);
            assert(marks@.take(i as int) =~= marks@);
        }
        ValueSet { items }
    }

    /// The set with the one member `v`.
    pub fn singleton(v: V) -> (r: Self)
        ensures
            r.wf(),
            r@ == Set::<Seq<u8>>::empty().insert(v.key()),
    {
        let mut r = ValueSet::new();
        r.insert(v);
        r
    }

    /// The members of both `self` and `other`.
    pub fn intersection(&self, other: &Self) -> (r: Self)
        ensures
            r.wf(),
            r@ == self@.intersect(other@),
    {
        let r = self.select(other, true);
        assert(r@ =~= self@.intersect(other@));
        r
    }

    /// The members of `self` that are not members of `other`.
    pub fn difference(&self, other: &Self) -> (r: Self)
        ensures
            r.wf(),
            r@ == self@.difference(other@),
    {
        let r = self.select(other, false);
        assert(r@ =~= self@.difference(other@));
        r
    }

    /// The first `n` members of the ascending order, or all if there are fewer.
    pub fn first(&self, n: usize) -> (r: Self)
        ensures
            r.wf(),
            r.keys() == self.keys().take(if n <= self.keys().len() {
                n as int
            } else {
                self.keys().len() as int
            }),
    {
        proof {
            use_type_invariant(self);
        }
        let mut items: Vec<V> = Vec::new();
        let mut i: usize = 0;
        while i < self.items.len() && i < n
            invariant
                i <= self.items.len(),
                i <= n,
                keys_of(items@) == self.keys().take(i as int),
            decreases self.items.len() - i,
        {
            let ghost held = items@;
            items.push(self.items[i].replicate());
            proof {
                lemma_keys_of_push(held, items@[i as int]);
                assert(self.keys().take(i + 1) =~= self.keys().take(i as int).push(
                    self.keys()[i as int],
                ));
            }
            i = i + 1;
        }
        ValueSet { items }
    }

    /// Where `self` stands relative to `other` when both are read in
    /// ascending order and compared member by member.
    pub fn compare(&self, other: &Self) -> (r: Rank)
        ensures
            r == keys_rank(self.keys(), other.keys()),
    {
        compare_value_lists(&self.items, &other.items)
    }

    /// In a well-formed set the held order is the ascending listing of the view.
    pub proof fn lemma_keys_sorted(&self)
        requires
            self.wf(),
        ensures
            self.keys() == sorted_keys(self@),
            self@.finite(),
            self@.len() == self.keys().len(),
    {
        lemma_sorted_keys_of_sorted(self.keys());
        lemma_sorted_no_duplicates(self.keys());
        self.keys().unique_seq_to_set();
        vstd::seq_lib::seq_to_set_is_finite(self.keys());
    }
}

/// The keys of a list with one more value at its end.
pub proof fn lemma_keys_of_push<V: Value>(values: Seq<V>, v: V)
    ensures
        keys_of(values.push(v)) == keys_of(values).push(v.key()),
{
    assert(keys_of(values.push(v)) =~= keys_of(values).push(v.key()));
}

/// The members of `items` at the places that `marks` marks.
pub open spec fn marked<T>(items: Seq<T>, marks: Seq<bool>) -> Set<T> {
    Set::new(
        |x: T| exists|i: int| 0 <= i < items.len() && i < marks.len() && marks[i] && #[trigger] items[i] == x,
    )
}

/// One more item, marked or not.
pub proof fn lemma_marked_push<T>(items: Seq<T>, marks: Seq<bool>, x: T, mark: bool)
    requires
        items.len() == marks.len(),
    ensures
        marked(items.push(x), marks.push(mark)) == if mark {
            marked(items, marks).insert(x)
        } else {
            marked(items, marks)
        },
{
    let a = items.push(x);
    let b = marks.push(mark);
    let want = if mark {
        marked(items, marks).insert(x)
    } else {
        marked(items, marks)
    };
    assert forall|y: T| marked(a, b).contains(y) == want.contains(y) by {
        if marked(a, b).contains(y) {
            let i = choose|i: int| 0 <= i < a.len() && i < b.len() && b[i] && #[trigger] a[i] == y;
            if i < items.len() {
                assert(marks[i] && items[i] == y);
            }
        }
        if marked(items, marks).contains(y) {
            let i = choose|i: int|
                0 <= i < items.len() && i < marks.len() && marks[i] && #[trigger] items[i] == y;
            assert(b[i] && a[i] == y);
        }
        if mark && y == x {
            assert(b[items.len() as int] && a[items.len() as int] == y);
        }
    }
    assert(marked(a, b) =~= want);
}

/// Where the marks say of each item whether `pred` holds of it, the marked
/// items are the members of which `pred` holds.
pub proof fn lemma_marked_filter<T>(items: Seq<T>, marks: Seq<bool>, pred: spec_fn(T) -> bool)
    requires
        items.len() == marks.len(),
        forall|i: int| 0 <= i < items.len() ==> marks[i] == pred(#[trigger] items[i]),
    ensures
        marked(items, marks) == items.to_set().filter(pred),
{
    assert forall|y: T| marked(items, marks).contains(y) == items.to_set().filter(pred).contains(
        y,
    ) by {
        if marked(items, marks).contains(y) {
            let i = choose|i: int|
                0 <= i < items.len() && i < marks.len() && marks[i] && #[trigger] items[i] == y;
            assert(items.contains(y));
        }
        if items.contains(y) && pred(y) {
            let i = choose|i: int| 0 <= i < items.len() && items[i] == y;
            assert(marks[i] && items[i] == y);
        }
    }
    assert(marked(items, marks) =~= items.to_set().filter(pred));
}

/// A sorted list holds no key twice.
pub proof fn lemma_sorted_no_duplicates(a: Seq<Seq<u8>>)
    requires
        strictly_sorted(a),
    ensures
        a.no_duplicates(),
{
    assert forall|i: int, j: int| 0 <= i < a.len() && 0 <= j < a.len() && i != j implies a[i]
        != a[j] by {
        lemma_key_lt_irreflexive(a[i]);
        if i < j {
            assert(key_lt(a[i], a[j]));
        } else {
            assert(key_lt(a[j], a[i]));
        }
    }
}

/// The members of a list with one more at its end.
pub proof fn lemma_push_to_set<T>(s: Seq<T>, x: T)
    ensures
        s.push(x).to_set() == s.to_set().insert(x),
{
    assert forall|y: T| s.push(x).to_set().contains(y) == s.to_set().insert(x).contains(y) by {
        if s.push(x).contains(y) {
            let m = choose|m: int| 0 <= m < s.push(x).len() && s.push(x)[m] == y;
            if m < s.len() {
                assert(s[m] == y);
            }
        }
        if s.contains(y) {
            let m = choose|m: int| 0 <= m < s.len() && s[m] == y;
            assert(s.push(x)[m] == y);
        }
        if y == x {
            assert(s.push(x)[s.len() as int] == y);
        }
    }
    assert(s.push(x).to_set() =~= s.to_set().insert(x));
}

proof fn lemma_keys_lt_skip(a: Seq<Seq<u8>>, b: Seq<Seq<u8>>, i: int)
    requires
        0 <= i <= a.len(),
        i <= b.len(),
        a.take(i) == b.take(i),
    ensures
        keys_lt(a, b) == keys_lt(a.skip(i), b.skip(i)),
        (a == b) == (a.skip(i) == b.skip(i)),
    decreases i,
{
    if i == 0 {
        assert(a.skip(0) =~= a);
        assert(b.skip(0) =~= b);
    } else {
        assert(a[0] == a.take(i)[0]);
        assert(b[0] == b.take(i)[0]);
        assert(a.drop_first().take(i - 1) =~= a.take(i).drop_first());
        assert(b.drop_first().take(i - 1) =~= b.take(i).drop_first());
        lemma_keys_lt_skip(a.drop_first(), b.drop_first(), i - 1);
        assert(a.drop_first().skip(i - 1) =~= a.skip(i));
        assert(b.drop_first().skip(i - 1) =~= b.skip(i));
        if a.skip(i) == b.skip(i) {
            assert(a =~= a.take(i) + a.skip(i));
            assert(b =~= b.take(i) + b.skip(i));
        }
    }
}

/// Compares two lists of values member by member in the order on keys.
pub fn compare_value_lists<V: Value>(a: &Vec<V>, b: &Vec<V>) -> (r: Rank)
    ensures
        r == keys_rank(keys_of(a@), keys_of(b@)),
{
    let ghost ka = keys_of(a@);
    let ghost kb = keys_of(b@);
    let mut i: usize = 0;
    while i < a.len() && i < b.len()
        invariant
            i <= a.len(),
            i <= b.len(),
            ka == keys_of(a@),
            kb == keys_of(b@),
            ka.take(i as int) == kb.take(i as int),
        decreases a.len() - i,
    {
        let c = compare_values(&a[i], &b[i]);
        match c {
            Rank::Same => {},
            _ => {
                proof {
                    lemma_keys_lt_skip(ka, kb, i as int);
                    lemma_keys_lt_total(ka, kb);
                    lemma_key_lt_total(ka[i as int], kb[i as int]);
                    assert(ka.skip(i as int)[0] == ka[i as int]);
                    assert(kb.skip(i as int)[0] == kb[i as int]);
                }
                return c;
            },
        }
        assert(ka.take(i + 1) =~= ka.take(i as int).push(ka[i as int]));
        assert(kb.take(i + 1) =~= kb.take(i as int).push(kb[i as int]));
        i = i + 1;
    }
    proof {
        lemma_keys_lt_skip(ka, kb, i as int);
        lemma_keys_lt_total(ka, kb);
        if i == a.len() && i == b.len() {
            assert(ka.skip(i as int) =~= kb.skip(i as int));
        }
    }
    if i < b.len() {
        Rank::Below
    } else if i < a.len() {
        Rank::Above
    } else {
        Rank::Same
    }
}

/// A copy of a list of values.
pub fn replicate_values<V: Value>(values: &Vec<V>) -> (r: Vec<V>)
    ensures
        keys_of(r@) == keys_of(values@),
{
    let mut r: Vec<V> = Vec::new();
    let mut i: usize = 0;
    while i < values.len()
        invariant
            i <= values.len(),
            keys_of(r@) == keys_of(values@).take(i as int),
        decreases values.len() - i,
    {
        let ghost held = r@;
        r.push(values[i].replicate());
        proof {
            lemma_keys_of_push(held, r@[i as int]);
            assert(keys_of(values@).take(i + 1) =~= keys_of(values@).take(i as int).push(
                keys_of(values@)[i as int],
            ));
        }
        i = i + 1;
    }
    assert(keys_of(values@).take(i as int) =~= keys_of(values@));
    r
}

} // verus!
