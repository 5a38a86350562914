//! A bounded record of byte strings seen, least recently used first.

use crate::value::{compare_bytes, Rank};
use vstd::prelude::*;

verus! {

/// The contents of a list of byte strings, in the same order.
pub open spec fn entries_of(items: Seq<Vec<u8>>) -> Seq<Seq<u8>> {
    Seq::new(items.len(), |i: int| items[i]@)
}

/// The place of `h` in `s`.
pub open spec fn place(s: Seq<Seq<u8>>, h: Seq<u8>) -> int {
    choose|i: int| 0 <= i < s.len() && s[i] == h
}

/// `s` after `h` was used: if it is there, it moves to the recent end.
pub open spec fn touched(s: Seq<Seq<u8>>, h: Seq<u8>) -> Seq<Seq<u8>> {
    if s.contains(h) {
        s.remove(place(s, h)).push(h)
    } else {
        s
    }
}

/// `s` after `h` was stored with room for `capacity` entries: `h` is at the
/// recent end, and where it is new and there is no room, the entries used
/// least recently have left.
pub open spec fn stored(s: Seq<Seq<u8>>, h: Seq<u8>, capacity: nat) -> Seq<Seq<u8>> {
    if s.contains(h) {
        touched(s, h)
    } else if s.len() >= capacity {
        s.skip(s.len() - capacity + 1).push(h)
    } else {
        s.push(h)
    }
}

/// Whatever is stored is there afterwards, at the recent end.
pub proof fn lemma_stored_is_last(s: Seq<Seq<u8>>, h: Seq<u8>, capacity: nat)
    requires
        capacity >= 1,
    ensures
        stored(s, h, capacity).len() >= 1,
        stored(s, h, capacity).last() == h,
        stored(s, h, capacity).contains(h),
        touched(s, h).contains(h) == s.contains(h),
{
    let r = stored(s, h, capacity);
    assert(r.last() == h);
    assert(r[r.len() - 1] == h);
    if s.contains(h) {
        let t = touched(s, h);
        assert(t[t.len() - 1] == h);
    }
}

/// Using and storing keep the entries distinct.
pub proof fn lemma_stored_no_duplicates(s: Seq<Seq<u8>>, h: Seq<u8>, capacity: nat)
    requires
        s.no_duplicates(),
        capacity >= 1,
    ensures
        touched(s, h).no_duplicates(),
        stored(s, h, capacity).no_duplicates(),
{
    if s.contains(h) {
        let i = place(s, h);
        let after = s.remove(i).push(h);
        assert forall|a: int, b: int|
            0 <= a < after.len() && 0 <= b < after.len() && a != b implies after[a] != after[b] by {
            let pa = if a == after.len() - 1 {
                i
            } else if a < i {
                a
            } else {
                a + 1
            };
            let pb = if b == after.len() - 1 {
                i
            } else if b < i {
                b
            } else {
                b + 1
            };
            assert(after[a] == s[pa]);
            assert(after[b] == s[pb]);
        }
    } else {
        let mid = if s.len() >= capacity {
            s.skip(s.len() - capacity + 1)
        } else {
            s
        };
        let after = mid.push(h);
        let off = s.len() - mid.len();
        assert forall|a: int, b: int|
            0 <= a < after.len() && 0 <= b < after.len() && a != b implies after[a] != after[b] by {
            if a < mid.len() {
                assert(mid[a] == s[a + off]);
                assert(s.contains(s[a + off]));
            }
            if b < mid.len() {
                assert(mid[b] == s[b + off]);
                assert(s.contains(s[b + off]));
            }
        }
    }
}

/// Using the entry at the recent end changes nothing.
pub proof fn lemma_touch_last(s: Seq<Seq<u8>>, h: Seq<u8>)
    requires
        s.no_duplicates(),
        s.len() >= 1,
        s.last() == h,
    ensures
        touched(s, h) == s,
{
    assert(s[s.len() - 1] == h);
    assert(s.contains(h));
    let i = place(s, h);
    assert(i == s.len() - 1);
    assert(s.remove(i).push(h) =~= s);
}

/// A bounded record of byte strings, least recently used first.
pub struct LruCache {
    order: Vec<Vec<u8>>,
    capacity: usize,
}

impl View for LruCache {
    type V = Seq<Seq<u8>>;

    /// The entries, least recently used first.
    closed spec fn view(&self) -> Seq<Seq<u8>> {
        entries_of(self.order@)
    }
}

impl LruCache {
    /// How many entries the record has room for.
    pub closed spec fn cap(&self) -> nat {
        self.capacity as nat
    }

    /// There is room for at least one entry, no more entries than there is
    /// room for, and none twice. This holds of every record that exists
    /// while the program runs.
    #[verifier::type_invariant]
    pub open spec fn wf(&self) -> bool {
        self.cap() >= 1 && self@.len() <= self.cap() && self@.no_duplicates()
    }

    /// An empty record with room for `capacity` entries.
    pub fn new(capacity: usize) -> (r: Self)
        requires
            capacity >= 1,
        ensures
            r@ == Seq::<Seq<u8>>::empty(),
            r.cap() == capacity,
            r.wf(),
    {
        let r = LruCache { order: Vec::new(), capacity };
        assert(r@ =~= Seq::<Seq<u8>>::empty());
        r
    }

    /// The number of entries.
    pub fn len(&self) -> (n: usize)
        ensures
            n == self@.len(),
            self.wf(),
    {
        proof {
            use_type_invariant(self);
        }
        self.order.len()
    }

    /// The place of `h`, if it is there.
    fn find(&self, h: &Vec<u8>) -> (r: Option<usize>)
        ensures
            match r {
                Some(i) => i < self@.len() && self@[i as int] == h@,
                None => !self@.contains(h@),
            },
    {
        let mut i: usize = 0;
        while i < self.order.len()
            invariant
                i <= self.order.len(),
                forall|j: int| 0 <= j < i ==> self@[j] != h@,
            decreases self.order.len() - i,
        {
            if compare_bytes(&self.order[i], h) == Rank::Same {
                return Some(i);
            }
            i = i + 1;
        }
        None
    }

    /// Whether `h` is there; the order of use stays as it is.
    pub fn contains(&self, h: &Vec<u8>) -> (b: bool)
        ensures
            b == self@.contains(h@),
    {
        match self.find(h) {
            Some(i) => {
                assert(self@.contains(self@[i as int]));
                true
            },
            None => false,
        }
    }

    /// Uses `h`: says whether it is there, and if so moves it to the recent
    /// end.
    pub fn get(&mut self, h: &Vec<u8>) -> (found: bool)
        ensures
            found == old(self)@.contains(h@),
            final(self)@ == touched(old(self)@, h@),
            final(self).cap() == old(self).cap(),
            final(self).wf(),
    {
        proof {
            use_type_invariant(&*self);
        }
        match self.find(h) {
            Some(i) => {
                let ghost before = self@;
                assert(before.contains(before[i as int]));
                assert(place(before, h@) == i);
                let capacity = self.capacity;
                let mut taken = LruCache { order: Vec::new(), capacity };
                assert(taken@ =~= Seq::<Seq<u8>>::empty());
                core::mem::swap(self, &mut taken);
                let mut order = taken.order;
                let used = order.remove(i);
                order.push(used);
                proof {
                    let after = entries_of(order@);
                    assert(after =~= before.remove(i as int).push(h@));
                    assert forall|a: int, b: int|
                        0 <= a < after.len() && 0 <= b < after.len() && a != b implies after[a]
                        != after[b] by {
                        let pa = if a == after.len() - 1 {
                            i as int
                        } else if a < i {
                            a
                        } else {
                            a + 1
                        };
                        let pb = if b == after.len() - 1 {
                            i as int
                        } else if b < i {
                            b
                        } else {
                            b + 1
                        };
                        assert(after[a] == before[pa]);
                        assert(after[b] == before[pb]);
                    }
                }
                *self = LruCache { order, capacity };
                true
            },
            None => false,
        }
    }

    /// Stores `h` at the recent end. Where it is new and there is no room,
    /// the entry used least recently leaves.
    pub fn put(&mut self, h: Vec<u8>)
        ensures
            final(self)@ == stored(old(self)@, h@, old(self).cap()),
            final(self).cap() == old(self).cap(),
            final(self).wf(),
    {
        proof {
            use_type_invariant(&*self);
        }
        if self.get(&h) {
            return ;
        }
        let ghost before = self@;
        let capacity = self.capacity;
        let mut taken = LruCache { order: Vec::new(), capacity };
        assert(taken@ =~= Seq::<Seq<u8>>::empty());
        core::mem::swap(self, &mut taken);
        let mut order = taken.order;
        if order.len() >= capacity {
            order.remove(0);
            assert(entries_of(order@) =~= before.skip(before.len() - capacity + 1));
        }
        let ghost mid = entries_of(order@);
        order.push(h);
        proof {
            let after = entries_of(order@);
            assert(after =~= mid.push(h@));
            let off = before.len() - mid.len();
            assert forall|a: int| 0 <= a < mid.len() implies mid[a] == before[a + off] by {}
            assert forall|a: int, b: int|
                0 <= a < after.len() && 0 <= b < after.len() && a != b implies after[a]
                != after[b] by {
                if a < mid.len() {
                    assert(before.contains(before[a + off]));
                }
                if b < mid.len() {
                    assert(before.contains(before[b + off]));
                }
            }
        }
        *self = LruCache { order, capacity };
    }
}

} // verus!
