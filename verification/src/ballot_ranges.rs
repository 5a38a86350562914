//! Ranges of ballot counters, one for each list of values.

use crate::value::{keys_of, Rank, Value};
use crate::value_set::{compare_value_lists, replicate_values};
use vstd::prelude::*;

verus! {

/// A range of counters for ballots with given values.
pub struct BallotRange<V: Value> {
    /// The values of the ballots.
    pub values: Vec<V>,
    /// The lowest counter.
    pub min: u32,
    /// The highest counter.
    pub max: u32,
}

/// The mathematical content of a [`BallotRange`].
pub struct BallotRangeView {
    pub values: Seq<Seq<u8>>,
    pub min: u32,
    pub max: u32,
}

impl<V: Value> View for BallotRange<V> {
    type V = BallotRangeView;

    open spec fn view(&self) -> BallotRangeView {
        BallotRangeView { values: keys_of(self.values@), min: self.min, max: self.max }
    }
}

impl<V: Value> BallotRange<V> {
    /// A copy of the range.
    pub fn duplicate(&self) -> (r: Self)
        ensures
            r@ == self@,
    {
        BallotRange { values: replicate_values(&self.values), min: self.min, max: self.max }
    }
}

/// The contents of a list of ranges, in the same order.
pub open spec fn ranges_of<V: Value>(ranges: Seq<BallotRange<V>>) -> Seq<BallotRangeView> {
    Seq::new(ranges.len(), |i: int| ranges[i]@)
}

/// No two ranges of the list are for the same values.
pub open spec fn distinct_values(ranges: Seq<BallotRangeView>) -> bool {
    forall|i: int, j: int|
        0 <= i < ranges.len() && 0 <= j < ranges.len() && i != j ==> (#[trigger] ranges[i]).values
            != (#[trigger] ranges[j]).values
}

/// Whether the list holds a range for `values`.
pub open spec fn has_values(ranges: Seq<BallotRangeView>, values: Seq<Seq<u8>>) -> bool {
    exists|i: int| 0 <= i < ranges.len() && (#[trigger] ranges[i]).values == values
}

/// The place of a range for `values` in the list.
pub open spec fn place_of_values(ranges: Seq<BallotRangeView>, values: Seq<Seq<u8>>) -> int {
    choose|i: int| 0 <= i < ranges.len() && (#[trigger] ranges[i]).values == values
}

/// The list after `r` was stored: in the place of the range for the same
/// values, or after all others if there was none.
pub open spec fn stored_range(ranges: Seq<BallotRangeView>, r: BallotRangeView) -> Seq<
    BallotRangeView,
> {
    if has_values(ranges, r.values) {
        ranges.update(place_of_values(ranges, r.values), r)
    } else {
        ranges.push(r)
    }
}

/// The list that comes of storing the ranges of `given` one after the
/// other: of several ranges for the same values the last one stays, in the
/// place of the first.
pub open spec fn stored_all(given: Seq<BallotRangeView>) -> Seq<BallotRangeView>
    decreases given.len(),
{
    if given.len() == 0 {
        Seq::empty()
    } else {
        stored_range(stored_all(given.drop_last()), given.last())
    }
}

/// Ranges of ballot counters, at most one for each list of values, in the
/// order in which the value lists were first given.
pub struct BallotRanges<V: Value> {
    items: Vec<BallotRange<V>>,
}

impl<V: Value> View for BallotRanges<V> {
    type V = Seq<BallotRangeView>;

    closed spec fn view(&self) -> Seq<BallotRangeView> {
        ranges_of(self.items@)
    }
}

impl<V: Value> BallotRanges<V> {
    /// No two ranges are for the same values. This holds of every list that
    /// exists while the program runs.
    #[verifier::type_invariant]
    pub open spec fn wf(&self) -> bool {
        distinct_values(self@)
    }

    /// The empty list.
    pub fn new() -> (r: Self)
        ensures
            r.wf(),
            r@ == Seq::<BallotRangeView>::empty(),
    {
        let r = BallotRanges { items: Vec::new() };
        assert(r@ =~= Seq::<BallotRangeView>::empty());
        r
    }

    /// The list of the ranges `items`, of which no two are for the same
    /// values.
    pub fn from_distinct(items: Vec<BallotRange<V>>) -> (r: Self)
        requires
            distinct_values(ranges_of(items@)),
        ensures
            r.wf(),
            r@ == ranges_of(items@),
    {
        BallotRanges { items }
    }

    /// The number of ranges.
    pub fn len(&self) -> (n: usize)
        ensures
            n == self@.len(),
            self.wf(),
    {
        proof {
            use_type_invariant(self);
        }
        self.items.len()
    }

    /// The range at place `i`.
    pub fn get(&self, i: usize) -> (r: &BallotRange<V>)
        requires
            i < self@.len(),
        ensures
            r@ == self@[i as int],
    {
        &self.items[i]
    }

    /// The place of the range for `values`, if there is one.
    fn find(&self, values: &Vec<V>) -> (r: Option<usize>)
        ensures
            match r {
                Some(i) => i < self@.len() && self@[i as int].values == keys_of(values@),
                None => !has_values(self@, keys_of(values@)),
            },
    {
        let mut i: usize = 0;
        while i < self.items.len()
            invariant
                i <= self.items.len(),
                forall|j: int| 0 <= j < i ==> (#[trigger] self@[j]).values != keys_of(values@),
            decreases self.items.len() - i,
        {
            if compare_value_lists(&self.items[i].values, values) == Rank::Same {
                return Some(i);
            }
            i = i + 1;
        }
        None
    }

    /// The range for `values`, if there is one.
    pub fn range_for(&self, values: &Vec<V>) -> (r: Option<(u32, u32)>)
        ensures
            match r {
                Some((min, max)) => has_values(self@, keys_of(values@)) && min == self@[place_of_values(
                    self@,
                    keys_of(values@),
                )].min && max == self@[place_of_values(self@, keys_of(values@))].max,
                None => !has_values(self@, keys_of(values@)),
            },
    {
        match self.find(values) {
            Some(i) => {
                proof {
                    use_type_invariant(self);
                    let p = place_of_values(self@, keys_of(values@));
                    assert(self@[i as int].values == keys_of(values@));
                    assert(p == i);
                }
                Some((self.items[i].min, self.items[i].max))
            },
            None => None,
        }
    }

    /// Stores `range`: in the place of the range for the same values, or
    /// after all others if there was none.
    pub fn insert(&mut self, range: BallotRange<V>)
        ensures
            final(self).wf(),
            final(self)@ == stored_range(old(self)@, range@),
    {
        proof {
            use_type_invariant(&*self);
        }
        let ghost before = self@;
        let found = self.find(&range.values);
        proof {
            if found is Some {
                let i = found->0 as int;
                assert(before[i].values == range@.values);
                assert(place_of_values(before, range@.values) == i);
            }
        }
        let mut taken = BallotRanges::new();
        core::mem::swap(self, &mut taken);
        let mut items = taken.items;
        match found {
            Some(i) => {
                items.set(i, range);
                assert(ranges_of(items@) =~= before.update(i as int, range@));
            },
            None => {
                items.push(range);
                assert(ranges_of(items@) =~= before.push(range@));
            },
        }
        proof {
            let after = ranges_of(items@);
            let p = match found {
                Some(i) => i as int,
                None => before.len() as int,
            };
            assert forall|i: int, j: int|
                0 <= i < after.len() && 0 <= j < after.len() && i != j implies (#[trigger] after[i]).values
                != (#[trigger] after[j]).values by {
                if i != p {
                    assert(after[i] == before[i]);
                }
                if j != p {
                    assert(after[j] == before[j]);
                }
            }
        }
        *self = BallotRanges { items };
    }

    /// The list that comes of storing the ranges of `given` one after the
    /// other.
    pub fn from_vec(given: Vec<BallotRange<V>>) -> (r: Self)
        ensures
            r.wf(),
            r@ == stored_all(ranges_of(given@)),
    {
        let mut r = BallotRanges::new();
        let mut i: usize = 0;
        let ghost all = ranges_of(given@);
        assert(all.take(0) =~= Seq::<BallotRangeView>::empty());
        while i < given.len()
            invariant
                i <= given.len(),
                all == ranges_of(given@),
                r@ == stored_all(all.take(i as int)),
            decreases given.len() - i,
        {
            proof {
                assert(all.take(i + 1).drop_last() =~= all.take(i as int));
                assert(all.take(i + 1).last() == given[i as int]@);
            }
            r.insert(given[i].duplicate());
            i = i + 1;
        }
        proof {
            assert(all.take(i as int) =~= all);
            use_type_invariant(&r);
        }
        r
    }

    /// A copy of the list.
    pub fn duplicate(&self) -> (r: Self)
        ensures
            r.wf(),
            r@ == self@,
    {
        proof {
            use_type_invariant(self);
        }
        let mut items: Vec<BallotRange<V>> = Vec::new();
        let mut i: usize = 0;
        while i < self.items.len()
            invariant
                i <= self.items.len(),
                items.len() == i,
                forall|j: int| 0 <= j < i ==> (#[trigger] items[j])@ == self.items[j]@,
            decreases self.items.len() - i,
        {
            items.push(self.items[i].duplicate());
            i = i + 1;
        }
        assert(ranges_of(items@) =~= self@);
        BallotRanges { items }
    }
}

} // verus!
