//! Node identifiers and sets of them.

use crate::value::{compare_bytes, Rank};
use crate::value_set::lemma_push_to_set;
use vstd::prelude::*;

verus! {

/// What identifies a node: the address it answers at and its public key.
#[allow(non_camel_case_types)]
pub struct NodeID {
    /// The address the node answers at.
    pub responder_id: String,
    /// The bytes of the node's public key.
    pub public_key: Vec<u8>,
}

/// The mathematical content of a [`NodeID`].
pub struct NodeIdView {
    pub responder_id: Seq<char>,
    pub public_key: Seq<u8>,
}

impl View for NodeID {
    type V = NodeIdView;

    open spec fn view(&self) -> NodeIdView {
        NodeIdView { responder_id: self.responder_id@, public_key: self.public_key@ }
    }
}

/// A copy of a byte string.
pub fn copy_bytes(bytes: &Vec<u8>) -> (r: Vec<u8>)
    ensures
        r@ == bytes@,
{
    let mut r: Vec<u8> = Vec::new();
    let mut i: usize = 0;
    while i < bytes.len()
        invariant
            i <= bytes.len(),
            r@ == bytes@.take(i as int),
        decreases bytes.len() - i,
    {
        r.push(bytes[i]);
        assert(r@ =~= bytes@.take(i + 1));
        i = i + 1;
    }
    assert(bytes@.take(i as int) =~= bytes@);
    r
}

impl NodeID {
    /// Whether the two identifiers name the same node.
    pub fn same(&self, other: &NodeID) -> (b: bool)
        ensures
            b == (self@ == other@),
    {
        let keys = compare_bytes(&self.public_key, &other.public_key);
        let names = self.responder_id == other.responder_id;
        names && keys == Rank::Same
    }

    /// A copy of the identifier.
    pub fn duplicate(&self) -> (r: NodeID)
        ensures
            r@ == self@,
    {
        NodeID { responder_id: self.responder_id.clone(), public_key: copy_bytes(&self.public_key) }
    }
}

/// The views of a list of identifiers, in the same order.
pub open spec fn ids_of(ids: Seq<NodeID>) -> Seq<NodeIdView> {
    Seq::new(ids.len(), |i: int| ids[i]@)
}

/// The views of a list with one more identifier at its end.
pub proof fn lemma_ids_of_push(ids: Seq<NodeID>, id: NodeID)
    ensures
        ids_of(ids.push(id)) == ids_of(ids).push(id@),
{
    assert(ids_of(ids.push(id)) =~= ids_of(ids).push(id@));
}

/// A finite set of node identifiers.
pub struct NodeSet {
    items: Vec<NodeID>,
}

impl View for NodeSet {
    type V = Set<NodeIdView>;

    open spec fn view(&self) -> Set<NodeIdView> {
        self.ids().to_set()
    }
}

impl NodeSet {
    /// The members in the order in which they were added.
    pub closed spec fn ids(&self) -> Seq<NodeIdView> {
        ids_of(self.items@)
    }

    /// No member is held twice. This holds of every set that exists while
    /// the program runs.
    #[verifier::type_invariant]
    pub open spec fn wf(&self) -> bool {
        self.ids().no_duplicates()
    }

    /// The empty set.
    pub fn new() -> (r: Self)
        ensures
            r.wf(),
            r@ == Set::<NodeIdView>::empty(),
            r.ids().len() == 0,
    {
        let r = NodeSet { items: Vec::new() };
        assert(r.ids() =~= Seq::<NodeIdView>::empty());
        assert(r@ =~= Set::<NodeIdView>::empty());
        r
    }

    /// The number of members.
    pub fn len(&self) -> (n: usize)
        ensures
            n == self.ids().len(),
            n == self@.len(),
            self.wf(),
    {
        proof {
            use_type_invariant(self);
            self.ids().unique_seq_to_set();
        }
        self.items.len()
    }

    /// Whether the set has no member.
    pub fn is_empty(&self) -> (b: bool)
        ensures
            b == (self.ids().len() == 0),
            b == (self@ == Set::<NodeIdView>::empty()),
    {
        proof {
            if self.ids().len() == 0 {
                assert(self@ =~= Set::<NodeIdView>::empty());
            } else {
                assert(self.ids().contains(self.ids()[0]));
                assert(self@.contains(self.ids()[0]));
            }
        }
        self.items.len() == 0
    }

    /// The member at place `i`.
    pub fn get(&self, i: usize) -> (id: &NodeID)
        requires
            i < self.ids().len(),
        ensures
            id@ == self.ids()[i as int],
    {
        &self.items[i]
    }

    /// Whether `id` is a member.
    pub fn contains(&self, id: &NodeID) -> (b: bool)
        ensures
            b == self@.contains(id@),
    {
        let mut i: usize = 0;
        while i < self.items.len()
            invariant
                i <= self.items.len(),
                forall|j: int| 0 <= j < i ==> self.ids()[j] != id@,
            decreases self.items.len() - i,
        {
            if self.items[i].same(id) {
                assert(self.ids()[i as int] == id@);
                assert(self.ids().contains(id@));
                return true;
            }
            i = i + 1;
        }
        false
    }

    /// Adds `id`; says whether it was new.
    pub fn insert(&mut self, id: NodeID) -> (added: bool)
        ensures
            final(self).wf(),
            final(self)@ == old(self)@.insert(id@),
            added == !old(self)@.contains(id@),
    {
        proof {
            use_type_invariant(&*self);
        }
        if self.contains(&id) {
            assert(self@ =~= self@.insert(id@));
            return false;
        }
        let ghost before = self.items@;
        let mut taken = NodeSet::new();
        core::mem::swap(self, &mut taken);
        let mut items = taken.items;
        items.push(id);
        proof {
            lemma_ids_of_push(before, id);
            lemma_push_to_set(ids_of(before), id@);
            let after = ids_of(items@);
            assert forall|i: int, j: int|
                0 <= i < after.len() && 0 <= j < after.len() && i != j implies after[i]
                != after[j] by {
                if i < before.len() {
                    assert(ids_of(before).contains(ids_of(before)[i]));
                }
                if j < before.len() {
                    assert(ids_of(before).contains(ids_of(before)[j]));
                }
            }
        }
        *self = NodeSet { items };
        true
    }

    /// A copy of the set.
    pub fn duplicate(&self) -> (r: Self)
        ensures
            r.ids() == self.ids(),
            r@ == self@,
            r.wf(),
    {
        proof {
            use_type_invariant(self);
        }
        let mut items: Vec<NodeID> = Vec::new();
        let mut i: usize = 0;
        while i < self.items.len()
            invariant
                i <= self.items.len(),
                ids_of(items@) == self.ids().take(i as int),
            decreases self.items.len() - i,
        {
            let ghost held = items@;
            items.push(self.items[i].duplicate());
            proof {
                lemma_ids_of_push(held, items@[i as int]);
                assert(self.ids().take(i + 1) =~= self.ids().take(i as int).push(
                    self.ids()[i as int],
                ));
            }
            i = i + 1;
        }
        assert(self.ids().take(i as int) =~= self.ids());
        NodeSet { items }
    }

    /// The set of the identifiers in `ids`.
    pub fn from_vec(ids: Vec<NodeID>) -> (r: Self)
        ensures
            r.wf(),
            r@ == ids_of(ids@).to_set(),
    {
        let mut r = NodeSet::new();
        let mut i: usize = 0;
        while i < ids.len()
            invariant
                i <= ids.len(),
                r.wf(),
                r@ == ids_of(ids@).take(i as int).to_set(),
            decreases ids.len() - i,
        {
            r.insert(ids[i].duplicate());
            proof {
                let vs = ids_of(ids@);
                assert(vs.take(i + 1) =~= vs.take(i as int).push(vs[i as int]));
                lemma_push_to_set(vs.take(i as int), vs[i as int]);
            }
            i = i + 1;
        }
        assert(ids_of(ids@).take(i as int) =~= ids_of(ids@));
        r
    }

    /// Whether every member of `self` is a member of `other`.
    pub fn is_subset(&self, other: &Self) -> (b: bool)
        ensures
            b == self@.subset_of(other@),
    {
        let mut i: usize = 0;
        while i < self.items.len()
            invariant
                i <= self.items.len(),
                forall|j: int| 0 <= j < i ==> other@.contains(#[trigger] self.ids()[j]),
            decreases self.items.len() - i,
        {
            if !other.contains(&self.items[i]) {
                proof {
                    assert(self.ids().contains(self.ids()[i as int]));
                    assert(self@.contains(self.ids()[i as int]));
                }
                return false;
            }
            i = i + 1;
        }
        true
    }

    /// Whether the two sets have the same members.
    pub fn same(&self, other: &Self) -> (b: bool)
        ensures
            b == (self@ == other@),
    {
        let b = self.is_subset(other) && other.is_subset(self);
        proof {
            if b {
                assert(self@ =~= other@);
            }
        }
        b
    }
}

} // verus!
