//! Quorum sets: whom a node trusts, as a tree of thresholds.

use crate::node_id::{ids_of, NodeID, NodeIdView};
use vstd::prelude::*;

verus! {

/// One member of a quorum set: a node, or a quorum set of its own.
pub enum QuorumSetMember {
    /// A single node.
    Node(NodeID),
    /// A nested quorum set, which counts as one member when it is satisfied.
    InnerSet(QuorumSet),
}

/// A threshold and the members of which that many must agree.
pub struct QuorumSet {
    /// How many members must agree.
    pub threshold: u32,
    /// The members, in declaration order.
    pub members: Vec<QuorumSetMember>,
}

/// The mathematical content of a [`QuorumSetMember`].
pub enum MemberView {
    Node(NodeIdView),
    InnerSet(QuorumSetView),
}

/// The mathematical content of a [`QuorumSet`].
pub struct QuorumSetView {
    pub threshold: u32,
    pub members: Seq<MemberView>,
}

/// The content of a member.
pub open spec fn member_view(m: QuorumSetMember) -> MemberView
    decreases m,
{
    match m {
        QuorumSetMember::Node(id) => MemberView::Node(id@),
        QuorumSetMember::InnerSet(q) => MemberView::InnerSet(quorum_set_view(q)),
    }
}

/// The contents of a list of members, in the same order.
pub open spec fn members_view(ms: Seq<QuorumSetMember>) -> Seq<MemberView>
    decreases ms,
{
    if ms.len() == 0 {
        Seq::empty()
    } else {
        members_view(ms.drop_last()).push(member_view(ms.last()))
    }
}

/// The content of a quorum set.
pub open spec fn quorum_set_view(q: QuorumSet) -> QuorumSetView
    decreases q,
{
    QuorumSetView { threshold: q.threshold, members: members_view(q.members@) }
}

impl View for QuorumSet {
    type V = QuorumSetView;

    open spec fn view(&self) -> QuorumSetView {
        quorum_set_view(*self)
    }
}

impl View for QuorumSetMember {
    type V = MemberView;

    open spec fn view(&self) -> MemberView {
        member_view(*self)
    }
}

/// `members_view` keeps the length and works member by member.
pub proof fn lemma_members_view(ms: Seq<QuorumSetMember>)
    ensures
        members_view(ms).len() == ms.len(),
        forall|i: int| 0 <= i < ms.len() ==> (#[trigger] members_view(ms)[i]) == member_view(ms[i]),
    decreases ms.len(),
{
    if ms.len() > 0 {
        lemma_members_view(ms.drop_last());
        assert forall|i: int| 0 <= i < ms.len() implies (#[trigger] members_view(ms)[i])
            == member_view(ms[i]) by {
            if i < ms.len() - 1 {
                assert(ms.drop_last()[i] == ms[i]);
            }
        }
    }
}

/// The contents of a list with one more member at its end.
pub proof fn lemma_members_view_push(ms: Seq<QuorumSetMember>, m: QuorumSetMember)
    ensures
        members_view(ms.push(m)) == members_view(ms).push(member_view(m)),
{
    assert(ms.push(m).drop_last() =~= ms);
}

/// The number of nodes and thresholds in a quorum set: what a walk over it
/// has to visit.
pub open spec fn quorum_set_size(q: QuorumSetView) -> nat
    decreases q,
{
    1 + members_size(q.members)
}

/// The number of nodes and thresholds in a list of members.
pub open spec fn members_size(ms: Seq<MemberView>) -> nat
    decreases ms,
{
    if ms.len() == 0 {
        0
    } else {
        member_size(ms[0]) + members_size(ms.drop_first())
    }
}

/// The number of nodes and thresholds in one member.
pub open spec fn member_size(m: MemberView) -> nat
    decreases m,
{
    match m {
        MemberView::Node(_) => 1,
        MemberView::InnerSet(q) => 1 + quorum_set_size(q),
    }
}

/// The rule every usable quorum set meets: the threshold is at least one and
/// at most the number of members, no member is listed twice, and every
/// nested set meets the rule too.
pub open spec fn valid_quorum_set(q: QuorumSetView) -> bool
    decreases q,
{
    &&& 1 <= q.threshold <= q.members.len()
    &&& q.members.no_duplicates()
    &&& forall|i: int|
        0 <= i < q.members.len() ==> (#[trigger] q.members[i] matches MemberView::InnerSet(inner)
            ==> valid_quorum_set(inner))
}

impl QuorumSetMember {
    /// A copy of the member.
    pub fn duplicate(&self) -> (r: QuorumSetMember)
        ensures
            r@ == self@,
        decreases self,
    {
        match self {
            QuorumSetMember::Node(id) => QuorumSetMember::Node(id.duplicate()),
            QuorumSetMember::InnerSet(q) => QuorumSetMember::InnerSet(q.duplicate()),
        }
    }

    /// Whether the two members have the same content.
    pub fn same(&self, other: &QuorumSetMember) -> (b: bool)
        ensures
            b == (self@ == other@),
        decreases self,
    {
        match self {
            QuorumSetMember::Node(id) => match other {
                QuorumSetMember::Node(id2) => id.same(id2),
                QuorumSetMember::InnerSet(_) => false,
            },
            QuorumSetMember::InnerSet(q) => match other {
                QuorumSetMember::Node(_) => false,
                QuorumSetMember::InnerSet(q2) => q.same(q2),
            },
        }
    }
}

impl QuorumSet {
    /// The quorum set with the given threshold and members.
    pub fn new(threshold: u32, members: Vec<QuorumSetMember>) -> (r: QuorumSet)
        ensures
            r@ == (QuorumSetView { threshold, members: members_view(members@) }),
    {
        QuorumSet { threshold, members }
    }

    /// The quorum set without members, which nothing satisfies.
    pub fn empty() -> (r: QuorumSet)
        ensures
            r@ == (QuorumSetView { threshold: 0, members: Seq::empty() }),
    {
        QuorumSet { threshold: 0, members: Vec::new() }
    }

    /// The quorum set whose members are the given nodes.
    pub fn new_with_node_ids(threshold: u32, node_ids: Vec<NodeID>) -> (r: QuorumSet)
        ensures
            r@.threshold == threshold,
            r@.members == ids_of(node_ids@).map_values(|id: NodeIdView| MemberView::Node(id)),
    {
        let mut members: Vec<QuorumSetMember> = Vec::new();
        let mut i: usize = 0;
        let ghost want = ids_of(node_ids@).map_values(|id: NodeIdView| MemberView::Node(id));
        while i < node_ids.len()
            invariant
                i <= node_ids.len(),
                want == ids_of(node_ids@).map_values(|id: NodeIdView| MemberView::Node(id)),
                members@.len() == i,
                members_view(members@) == want.take(i as int),
            decreases node_ids.len() - i,
        {
            let ghost held = members@;
            members.push(QuorumSetMember::Node(node_ids[i].duplicate()));
            proof {
                lemma_members_view_push(held, members@[i as int]);
                assert(want[i as int] == MemberView::Node(node_ids@[i as int]@));
                assert(want.take(i + 1) =~= want.take(i as int).push(want[i as int]));
            }
            i = i + 1;
        }
        assert(want.take(i as int) =~= want);
        QuorumSet { threshold, members }
    }

    /// A copy of the quorum set.
    pub fn duplicate(&self) -> (r: QuorumSet)
        ensures
            r@ == self@,
        decreases self,
    {
        let mut members: Vec<QuorumSetMember> = Vec::new();
        let mut i: usize = 0;
        proof {
            lemma_members_view(self.members@);
        }
        while i < self.members.len()
            invariant
                i <= self.members.len(),
                members@.len() == i,
                members_view(members@) == self@.members.take(i as int),
                self@.members.len() == self.members.len(),
                forall|j: int|
                    0 <= j < self.members.len() ==> (#[trigger] self@.members[j]) == member_view(
                        self.members@[j],
                    ),
            decreases self.members.len() - i,
        {
            let ghost held = members@;
            let m = self.members[i].duplicate();
            members.push(m);
            proof {
                lemma_members_view_push(held, m);
                assert(self@.members.take(i + 1) =~= self@.members.take(i as int).push(
                    self@.members[i as int],
                ));
            }
            i = i + 1;
        }
        assert(self@.members.take(i as int) =~= self@.members);
        QuorumSet { threshold: self.threshold, members }
    }

    /// Whether the two quorum sets have the same content, member by member.
    pub fn same(&self, other: &QuorumSet) -> (b: bool)
        ensures
            b == (self@ == other@),
        decreases self,
    {
        proof {
            lemma_members_view(self.members@);
            lemma_members_view(other.members@);
        }
        if self.threshold != other.threshold || self.members.len() != other.members.len() {
            return false;
        }
        let mut i: usize = 0;
        while i < self.members.len()
            invariant
                i <= self.members.len(),
                self.members.len() == other.members.len(),
                self@.members.len() == self.members.len(),
                other@.members.len() == other.members.len(),
                forall|j: int|
                    0 <= j < self.members.len() ==> (#[trigger] self@.members[j]) == member_view(
                        self.members@[j],
                    ),
                forall|j: int|
                    0 <= j < other.members.len() ==> (#[trigger] other@.members[j]) == member_view(
                        other.members@[j],
                    ),
                forall|j: int| 0 <= j < i ==> self@.members[j] == other@.members[j],
            decreases self.members.len() - i,
        {
            if !self.members[i].same(&other.members[i]) {
                assert(self@.members[i as int] != other@.members[i as int]);
                return false;
            }
            i = i + 1;
        }
        assert(self@.members =~= other@.members);
        true
    }

    /// Whether the quorum set meets the rule of [`valid_quorum_set`].
    pub fn is_valid(&self) -> (b: bool)
        ensures
            b == valid_quorum_set(self@),
        decreases self,
    {
        proof {
            lemma_members_view(self.members@);
        }
        if self.threshold < 1 || self.threshold as usize > self.members.len() {
            return false;
        }
        let mut i: usize = 0;
        while i < self.members.len()
            invariant
                i <= self.members.len(),
                self@.members.len() == self.members.len(),
                forall|j: int|
                    0 <= j < self.members.len() ==> (#[trigger] self@.members[j]) == member_view(
                        self.members@[j],
                    ),
                forall|a: int, b: int|
                    0 <= a < i && 0 <= b < a ==> self@.members[a] != self@.members[b],
                forall|j: int|
                    0 <= j < i ==> (#[trigger] self@.members[j] matches MemberView::InnerSet(inner)
                        ==> valid_quorum_set(inner)),
            decreases self.members.len() - i,
        {
            match &self.members[i] {
                QuorumSetMember::Node(_) => {},
                QuorumSetMember::InnerSet(q) => {
                    if !q.is_valid() {
                        assert(self@.members[i as int] == MemberView::InnerSet(q@));
                        return false;
                    }
                },
            }
            let mut k: usize = 0;
            while k < i
                invariant
                    k <= i,
                    i < self.members.len(),
                    self@.members.len() == self.members.len(),
                    forall|j: int|
                        0 <= j < self.members.len() ==> (#[trigger] self@.members[j])
                            == member_view(self.members@[j]),
                    forall|b: int| 0 <= b < k ==> self@.members[i as int] != self@.members[b],
                decreases i - k,
            {
                if self.members[k].same(&self.members[i]) {
                    assert(self@.members[k as int] == self@.members[i as int]);
                    return false;
                }
                k = k + 1;
            }
            i = i + 1;
        }
        true
    }
}

} // verus!
