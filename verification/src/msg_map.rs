//! The table of the latest message of each sender.

use crate::msg::{Msg, MsgView};
use crate::node_id::{NodeID, NodeIdView};
use crate::value::Value;
use vstd::prelude::*;

verus! {

/// The contents of a list of messages, in the same order.
pub open spec fn msgs_of<V: Value>(items: Seq<Msg<V>>) -> Seq<MsgView> {
    Seq::new(items.len(), |i: int| items[i]@)
}

/// No two messages of the list have the same sender.
pub open spec fn distinct_senders(ms: Seq<MsgView>) -> bool {
    forall|i: int, j: int|
        0 <= i < ms.len() && 0 <= j < ms.len() && i != j ==> (#[trigger] ms[i]).sender_id != (
        #[trigger] ms[j]).sender_id
}

/// Whether the list holds a message of `id`.
pub open spec fn has_sender(ms: Seq<MsgView>, id: NodeIdView) -> bool {
    exists|i: int| 0 <= i < ms.len() && (#[trigger] ms[i]).sender_id == id
}

/// The place of a message of `id` in the list.
pub open spec fn place_of(ms: Seq<MsgView>, id: NodeIdView) -> int {
    choose|i: int| 0 <= i < ms.len() && (#[trigger] ms[i]).sender_id == id
}

/// The list read as a table from sender to message.
pub open spec fn table_of(ms: Seq<MsgView>) -> Map<NodeIdView, MsgView> {
    Map::new(|id: NodeIdView| has_sender(ms, id), |id: NodeIdView| ms[place_of(ms, id)])
}

/// In a list with distinct senders each message is the table's entry for
/// its sender.
pub proof fn lemma_table_entry(ms: Seq<MsgView>, i: int)
    requires
        distinct_senders(ms),
        0 <= i < ms.len(),
    ensures
        table_of(ms).contains_key(ms[i].sender_id),
        table_of(ms)[ms[i].sender_id] == ms[i],
{
    let id = ms[i].sender_id;
    assert(has_sender(ms, id));
    let j = place_of(ms, id);
    assert(0 <= j < ms.len() && ms[j].sender_id == id);
}

/// The latest message of each sender, in the order in which the senders
/// were first heard.
pub struct MsgMap<V: Value> {
    items: Vec<Msg<V>>,
}

impl<V: Value> View for MsgMap<V> {
    type V = Map<NodeIdView, MsgView>;

    open spec fn view(&self) -> Map<NodeIdView, MsgView> {
        table_of(self.msgs())
    }
}

impl<V: Value> MsgMap<V> {
    /// The messages in the order in which their senders were first heard.
    pub closed spec fn msgs(&self) -> Seq<MsgView> {
        msgs_of(self.items@)
    }

    /// No sender has two messages. This holds of every table that exists
    /// while the program runs.
    #[verifier::type_invariant]
    pub open spec fn wf(&self) -> bool {
        distinct_senders(self.msgs())
    }

    /// The empty table.
    pub fn new() -> (r: Self)
        ensures
            r.msgs() == Seq::<MsgView>::empty(),
            r@ == Map::<NodeIdView, MsgView>::empty(),
            r.wf(),
    {
        let r = MsgMap { items: Vec::new() };
        assert(r.msgs() =~= Seq::<MsgView>::empty());
        assert(r@ =~= Map::<NodeIdView, MsgView>::empty());
        r
    }

    /// The number of senders.
    pub fn len(&self) -> (n: usize)
        ensures
            n == self.msgs().len(),
            n == self@.dom().len(),
            self@.dom().finite(),
            self.wf(),
    {
        proof {
            use_type_invariant(self);
            self.lemma_senders();
        }
        self.items.len()
    }

    /// The message at place `i`.
    pub fn at(&self, i: usize) -> (m: &Msg<V>)
        requires
            i < self.msgs().len(),
        ensures
            m@ == self.msgs()[i as int],
            self@.contains_key(m@.sender_id),
            self@[m@.sender_id] == m@,
    {
        proof {
            use_type_invariant(self);
            lemma_table_entry(self.msgs(), i as int);
        }
        &self.items[i]
    }

    /// The place of the message of `id`, if there is one.
    fn find(&self, id: &NodeID) -> (r: Option<usize>)
        ensures
            match r {
                Some(i) => i < self.msgs().len() && self.msgs()[i as int].sender_id == id@,
                None => !has_sender(self.msgs(), id@),
            },
    {
        let mut i: usize = 0;
        while i < self.items.len()
            invariant
                i <= self.items.len(),
                forall|j: int| 0 <= j < i ==> (#[trigger] self.msgs()[j]).sender_id != id@,
            decreases self.items.len() - i,
        {
            if self.items[i].sender_id.same(id) {
                return Some(i);
            }
            i = i + 1;
        }
        None
    }

    /// The latest message of `id`, if there is one.
    pub fn get(&self, id: &NodeID) -> (r: Option<&Msg<V>>)
        ensures
            match r {
                Some(m) => self@.contains_key(id@) && self@[id@] == m@,
                None => !self@.contains_key(id@),
            },
    {
        match self.find(id) {
            Some(i) => {
                proof {
                    use_type_invariant(self);
                    lemma_table_entry(self.msgs(), i as int);
                }
                Some(&self.items[i])
            },
            None => None,
        }
    }

    /// Makes `msg` the latest message of its sender: in the place of the
    /// sender's earlier message, or after all others if there was none.
    pub fn insert(&mut self, msg: Msg<V>)
        ensures
            final(self)@ == old(self)@.insert(msg@.sender_id, msg@),
            final(self).msgs() == if has_sender(old(self).msgs(), msg@.sender_id) {
                old(self).msgs().update(place_of(old(self).msgs(), msg@.sender_id), msg@)
            } else {
                old(self).msgs().push(msg@)
            },
    {
        proof {
            use_type_invariant(&*self);
        }
        let ghost before = self.msgs();
        let ghost id = msg@.sender_id;
        let found = self.find(&msg.sender_id);
        proof {
            if found is Some {
                let i = found->0 as int;
                assert(before[i].sender_id == id);
                assert(has_sender(before, id));
                assert(place_of(before, id) == i);
            }
        }
        let mut taken = MsgMap::new();
        core::mem::swap(self, &mut taken);
        let mut items = taken.items;
        match found {
            Some(i) => {
                items.set(i, msg);
                assert(msgs_of(items@) =~= before.update(i as int, msg@));
            },
            None => {
                items.push(msg);
                assert(msgs_of(items@) =~= before.push(msg@));
            },
        }
        proof {
            let after = msgs_of(items@);
            assert(distinct_senders(after));
            let p = match found {
                Some(i) => i as int,
                None => before.len() as int,
            };
            assert(after[p] == msg@);
            assert forall|k: NodeIdView| has_sender(after, k) == (k == id || has_sender(
                before,
                k,
            )) by {
                if has_sender(after, k) {
                    let j = place_of(after, k);
                    if j != p {
                        assert(before[j].sender_id == k);
                    }
                }
                if has_sender(before, k) {
                    let j = place_of(before, k);
                    if j != p {
                        assert(after[j].sender_id == k);
                    } else {
                        assert(k == id);
                    }
                }
                if k == id {
                    assert(after[p].sender_id == k);
                }
            }
            assert forall|k: NodeIdView| has_sender(after, k) implies table_of(after)[k]
                == table_of(before).insert(id, msg@)[k] by {
                let j = place_of(after, k);
                if k == id {
                    assert(j == p);
                } else {
                    assert(j != p);
                    assert(before[j].sender_id == k);
                    lemma_table_entry(before, j);
                }
            }
            assert(table_of(after) =~= table_of(before).insert(id, msg@));
        }
        *self = MsgMap { items };
    }

    /// A copy of the table.
    pub fn duplicate(&self) -> (r: Self)
        ensures
            r.msgs() == self.msgs(),
            r@ == self@,
    {
        proof {
            use_type_invariant(self);
        }
        let mut items: Vec<Msg<V>> = Vec::new();
        let mut i: usize = 0;
        while i < self.items.len()
            invariant
                i <= self.items.len(),
                items@.len() == i,
                msgs_of(items@) == self.msgs().take(i as int),
            decreases self.items.len() - i,
        {
            items.push(self.items[i].duplicate());
            assert(msgs_of(items@) =~= self.msgs().take(i + 1));
            i = i + 1;
        }
        assert(self.msgs().take(i as int) =~= self.msgs());
        MsgMap { items }
    }

    /// The table has as many entries as there are messages.
    pub proof fn lemma_senders(&self)
        requires
            self.wf(),
        ensures
            self@.dom().finite(),
            self@.dom().len() == self.msgs().len(),
    {
        let ms = self.msgs();
        let senders = Seq::new(ms.len(), |i: int| ms[i].sender_id);
        assert(senders.no_duplicates());
        assert forall|id: NodeIdView| senders.to_set().contains(id) == self@.dom().contains(
            id,
        ) by {
            if senders.contains(id) {
                let i = choose|i: int| 0 <= i < senders.len() && senders[i] == id;
                assert(ms[i].sender_id == id);
            }
            if has_sender(ms, id) {
                let i = place_of(ms, id);
                assert(senders[i] == id);
            }
        }
        assert(senders.to_set() =~= self@.dom());
        senders.unique_seq_to_set();
        vstd::seq_lib::seq_to_set_is_finite(senders);
    }

    /// Every entry of the table is one of the listed messages, and the other
    /// way round.
    pub proof fn lemma_entries(&self)
        requires
            self.wf(),
        ensures
            forall|i: int|
                0 <= i < self.msgs().len() ==> self@.contains_key(
                    (#[trigger] self.msgs()[i]).sender_id,
                ) && self@[self.msgs()[i].sender_id] == self.msgs()[i],
            forall|id: NodeIdView| #[trigger]
                self@.contains_key(id) ==> 0 <= place_of(self.msgs(), id) < self.msgs().len()
                    && self.msgs()[place_of(self.msgs(), id)] == self@[id] && self@[id].sender_id
                    == id,
    {
        assert forall|i: int| 0 <= i < self.msgs().len() implies self@.contains_key(
            (#[trigger] self.msgs()[i]).sender_id,
        ) && self@[self.msgs()[i].sender_id] == self.msgs()[i] by {
            lemma_table_entry(self.msgs(), i);
        }
    }
}

} // verus!
