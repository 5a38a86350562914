//! The searches over a quorum set: for a quorum that contains the local
//! node, and for a set of peers that blocks it.
//!
//! Both walk the members in declaration order, test the latest message of
//! each peer against a predicate that may change with every message taken,
//! and stop at the first set they find. Both are functions of the quorum set,
//! the message table and the predicate alone.

use crate::msg::{MsgView};
use crate::msg_map::MsgMap;
use crate::node_id::{NodeID, NodeIdView, NodeSet};
use crate::predicates::{FuncPredicate, MsgTest, Predicate};
use crate::quorum_set::{
    valid_quorum_set,
    lemma_members_view, member_size, members_size, members_view, quorum_set_size, MemberView,
    QuorumSet, QuorumSetMember, QuorumSetView,
};
use crate::value::Value;
use vstd::prelude::*;

verus! {

/// A walk over the members gets shorter with every member passed and with
/// every nested set entered.
pub proof fn lemma_smaller_members(members: Seq<MemberView>)
    requires
        members.len() > 0,
    ensures
        members_size(members.drop_first()) < members_size(members),
        members[0] matches MemberView::InnerSet(q) ==> members_size(q.members) < members_size(
            members,
        ),
{
    assert(member_size(members[0]) >= 1);
    match members[0] {
        MemberView::InnerSet(q) => {
            assert(member_size(members[0]) == 1 + quorum_set_size(q));
        },
        _ => {},
    }
}

/// The search for a quorum among `members`, of which `threshold` must be
/// satisfied.
///
/// `so_far` holds the nodes already taken into the quorum. A node member is
/// satisfied if it is in `so_far`, or if its latest message passes the
/// predicate and its own quorum set is then satisfied too, the node counted
/// as taken; `depth` bounds how many senders' quorum sets may be entered one
/// inside another. A nested set is satisfied if the search succeeds on it.
/// A member that cannot be satisfied is skipped. The result is the set of
/// the nodes taken and the predicate's state after the last message.
pub open spec fn quorum_search<V: Value, P: Predicate<V>>(
    threshold: u32,
    members: Seq<MemberView>,
    msgs: Map<NodeIdView, MsgView>,
    state: P::State,
    so_far: Set<NodeIdView>,
    depth: nat,
) -> Option<(Set<NodeIdView>, P::State)>
    decreases depth, members_size(members),
{
    if threshold == 0 {
        Some((so_far, state))
    } else if threshold > members.len() {
        None
    } else {
        proof {
            lemma_smaller_members(members);
        }
        let rest = members.drop_first();
        let less = (threshold - 1) as u32;
        let taken = match members[0] {
            MemberView::Node(n) => {
                if so_far.contains(n) {
                    quorum_search::<V, P>(less, rest, msgs, state, so_far, depth)
                } else if depth > 0 && msgs.contains_key(n) {
                    match P::step(state, msgs[n]) {
                        Some(s1) => match quorum_search::<V, P>(
                            msgs[n].quorum_set.threshold,
                            msgs[n].quorum_set.members,
                            msgs,
                            s1,
                            so_far.insert(n),
                            (depth - 1) as nat,
                        ) {
                            Some((nodes, s2)) => quorum_search::<V, P>(
                                less,
                                rest,
                                msgs,
                                s2,
                                nodes,
                                depth,
                            ),
                            None => None,
                        },
                        None => None,
                    }
                } else {
                    None
                }
            },
            MemberView::InnerSet(q) => match quorum_search::<V, P>(
                q.threshold,
                q.members,
                msgs,
                state,
                so_far,
                depth,
            ) {
                Some((nodes, s2)) => quorum_search::<V, P>(less, rest, msgs, s2, nodes, depth),
                None => None,
            },
        };
        match taken {
            Some(r) => Some(r),
            None => quorum_search::<V, P>(threshold, rest, msgs, state, so_far, depth),
        }
    }
}

/// How many members of a quorum set have to be blocked to block the set:
/// one more than may fail. Nothing blocks a set with threshold zero.
pub open spec fn blocking_need(q: QuorumSetView) -> Option<nat> {
    if q.threshold == 0 {
        None
    } else if q.threshold > q.members.len() {
        Some(0)
    } else {
        Some((q.members.len() - q.threshold + 1) as nat)
    }
}

/// The search for a blocking set among `members`, of which `needed` must be
/// blocked.
///
/// A node member is blocked if its latest message passes the predicate; a
/// nested set is blocked if the search succeeds on it. A member that cannot
/// be blocked is skipped. The result is the set of the nodes taken, added to
/// `so_far`, and the predicate's state after the last message.
pub open spec fn blocking_search<V: Value, P: Predicate<V>>(
    needed: nat,
    members: Seq<MemberView>,
    msgs: Map<NodeIdView, MsgView>,
    state: P::State,
    so_far: Set<NodeIdView>,
) -> Option<(Set<NodeIdView>, P::State)>
    decreases members_size(members),
{
    if needed == 0 {
        Some((so_far, state))
    } else if needed > members.len() {
        None
    } else {
        proof {
            lemma_smaller_members(members);
        }
        let rest = members.drop_first();
        let less = (needed - 1) as nat;
        let taken = match members[0] {
            MemberView::Node(n) => {
                if msgs.contains_key(n) {
                    match P::step(state, msgs[n]) {
                        Some(s1) => blocking_search::<V, P>(less, rest, msgs, s1, so_far.insert(n)),
                        None => None,
                    }
                } else {
                    None
                }
            },
            MemberView::InnerSet(q) => match blocking_need(q) {
                Some(k) => match blocking_search::<V, P>(k, q.members, msgs, state, so_far) {
                    Some((nodes, s2)) => blocking_search::<V, P>(less, rest, msgs, s2, nodes),
                    None => None,
                },
                None => None,
            },
        };
        match taken {
            Some(r) => Some(r),
            None => blocking_search::<V, P>(needed, rest, msgs, state, so_far),
        }
    }
}

/// The quorum for the node `local` with quorum set `q`, if the search finds
/// one: a set of nodes that contains `local`, with the predicate's state
/// after the messages of all the others.
pub open spec fn find_quorum<V: Value, P: Predicate<V>>(
    q: QuorumSetView,
    local: NodeIdView,
    msgs: Map<NodeIdView, MsgView>,
    state: P::State,
) -> Option<(Set<NodeIdView>, P::State)> {
    quorum_search::<V, P>(
        q.threshold,
        q.members,
        msgs,
        state,
        Set::<NodeIdView>::empty().insert(local),
        msgs.dom().len(),
    )
}

/// The blocking set for the quorum set `q`, if the search finds one.
pub open spec fn find_blocking_set<V: Value, P: Predicate<V>>(
    q: QuorumSetView,
    msgs: Map<NodeIdView, MsgView>,
    state: P::State,
) -> Option<(Set<NodeIdView>, P::State)> {
    match blocking_need(q) {
        Some(k) => blocking_search::<V, P>(k, q.members, msgs, state, Set::empty()),
        None => None,
    }
}

/// Whether what a search handed back is what the search is defined to find.
pub open spec fn is_found<V: Value, P: Predicate<V>>(
    r: Option<(NodeSet, P)>,
    want: Option<(Set<NodeIdView>, P::State)>,
) -> bool {
    match r {
        Some((nodes, p)) => want == Some((nodes@, p.state())),
        None => want is None,
    }
}

proof fn lemma_skip_step(ms: Seq<MemberView>, from: int)
    requires
        0 <= from < ms.len(),
    ensures
        ms.skip(from).drop_first() == ms.skip(from + 1),
        ms.skip(from)[0] == ms[from],
        ms.skip(from).len() == ms.len() - from,
        members_size(ms.skip(from + 1)) < members_size(ms.skip(from)),
        ms[from] matches MemberView::InnerSet(q) ==> members_size(q.members) < members_size(
            ms.skip(from),
        ),
{
    assert(ms.skip(from).drop_first() =~= ms.skip(from + 1));
    lemma_smaller_members(ms.skip(from));
}

fn quorum_walk<V: Value, P: Predicate<V>>(
    threshold: u32,
    members: &Vec<QuorumSetMember>,
    from: usize,
    msgs: &MsgMap<V>,
    pred: P,
    so_far: NodeSet,
    depth: usize,
) -> (r: Option<(NodeSet, P)>)
    requires
        from <= members.len(),
    ensures
        is_found(
            r,
            quorum_search::<V, P>(
                threshold,
                members_view(members@).skip(from as int),
                msgs@,
                pred.state(),
                so_far@,
                depth as nat,
            ),
        ),
    decreases depth, members_size(members_view(members@).skip(from as int)),
{
    proof {
        lemma_members_view(members@);
    }
    if threshold == 0 {
        return Some((so_far, pred));
    }
    if threshold as usize > members.len() - from {
        return None;
    }
    let ghost ms = members_view(members@);
    proof {
        lemma_skip_step(ms, from as int);
    }
    match &members[from] {
        QuorumSetMember::Node(n) => {
            if so_far.contains(n) {
                let r = quorum_walk(
                    threshold - 1,
                    members,
                    from + 1,
                    msgs,
                    pred.duplicate(),
                    so_far.duplicate(),
                    depth,
                );
                if r.is_some() {
                    return r;
                }
            } else if depth > 0 {
                match msgs.get(n) {
                    Some(msg) => {
                        match pred.test(msg) {
                            Some(next) => {
                                let mut with_n = so_far.duplicate();
                                with_n.insert(n.duplicate());
                                proof {
                                    lemma_members_view(msg.quorum_set.members@);
                                    assert(members_view(msg.quorum_set.members@).skip(0)
                                        =~= msg@.quorum_set.members);
                                }
                                match quorum_walk(
                                    msg.quorum_set.threshold,
                                    &msg.quorum_set.members,
                                    0,
                                    msgs,
                                    next,
                                    with_n,
                                    depth - 1,
                                ) {
                                    Some((nodes, later)) => {
                                        let r = quorum_walk(
                                            threshold - 1,
                                            members,
                                            from + 1,
                                            msgs,
                                            later,
                                            nodes,
                                            depth,
                                        );
                                        if r.is_some() {
                                            return r;
                                        }
                                    },
                                    None => {},
                                }
                            },
                            None => {},
                        }
                    },
                    None => {},
                }
            }
        },
        QuorumSetMember::InnerSet(q) => {
            proof {
                lemma_members_view(q.members@);
                assert(members_view(q.members@).skip(0) =~= q@.members);
                assert(ms[from as int] == MemberView::InnerSet(q@));
            }
            match quorum_walk(
                q.threshold,
                &q.members,
                0,
                msgs,
                pred.duplicate(),
                so_far.duplicate(),
                depth,
            ) {
                Some((nodes, later)) => {
                    let r = quorum_walk(threshold - 1, members, from + 1, msgs, later, nodes, depth);
                    if r.is_some() {
                        return r;
                    }
                },
                None => {},
            }
        },
    }
    quorum_walk(threshold, members, from + 1, msgs, pred, so_far, depth)
}

/// Computes [`blocking_need`].
fn needed_to_block(q: &QuorumSet) -> (r: Option<usize>)
    ensures
        match r {
            Some(k) => blocking_need(q@) == Some(k as nat),
            None => blocking_need(q@) is None,
        },
{
    proof {
        lemma_members_view(q.members@);
    }
    if q.threshold == 0 {
        None
    } else if q.threshold as usize > q.members.len() {
        Some(0)
    } else {
        Some(q.members.len() - q.threshold as usize + 1)
    }
}

fn blocking_walk<V: Value, P: Predicate<V>>(
    needed: usize,
    members: &Vec<QuorumSetMember>,
    from: usize,
    msgs: &MsgMap<V>,
    pred: P,
    so_far: NodeSet,
) -> (r: Option<(NodeSet, P)>)
    requires
        from <= members.len(),
    ensures
        is_found(
            r,
            blocking_search::<V, P>(
                needed as nat,
                members_view(members@).skip(from as int),
                msgs@,
                pred.state(),
                so_far@,
            ),
        ),
    decreases members_size(members_view(members@).skip(from as int)),
{
    proof {
        lemma_members_view(members@);
    }
    if needed == 0 {
        return Some((so_far, pred));
    }
    if needed > members.len() - from {
        return None;
    }
    let ghost ms = members_view(members@);
    proof {
        lemma_skip_step(ms, from as int);
    }
    match &members[from] {
        QuorumSetMember::Node(n) => {
            match msgs.get(n) {
                Some(msg) => {
                    match pred.test(msg) {
                        Some(next) => {
                            let mut with_n = so_far.duplicate();
                            with_n.insert(n.duplicate());
                            let r = blocking_walk(
                                needed - 1,
                                members,
                                from + 1,
                                msgs,
                                next,
                                with_n,
                            );
                            if r.is_some() {
                                return r;
                            }
                        },
                        None => {},
                    }
                },
                None => {},
            }
        },
        QuorumSetMember::InnerSet(q) => {
            proof {
                lemma_members_view(q.members@);
                assert(members_view(q.members@).skip(0) =~= q@.members);
                assert(ms[from as int] == MemberView::InnerSet(q@));
            }
            match needed_to_block(q) {
                Some(k) => {
                    match blocking_walk(
                        k,
                        &q.members,
                        0,
                        msgs,
                        pred.duplicate(),
                        so_far.duplicate(),
                    ) {
                        Some((nodes, later)) => {
                            let r = blocking_walk(needed - 1, members, from + 1, msgs, later, nodes);
                            if r.is_some() {
                                return r;
                            }
                        },
                        None => {},
                    }
                },
                None => {},
            }
        },
    }
    blocking_walk(needed, members, from + 1, msgs, pred, so_far)
}

impl QuorumSet {
    /// Searches for a quorum that contains the node `node_id`, whose quorum
    /// set this is, among the senders of `msgs`.
    pub fn search_quorum<V: Value, P: Predicate<V>>(
        &self,
        node_id: &NodeID,
        msgs: &MsgMap<V>,
        pred: P,
    ) -> (r: Option<(NodeSet, P)>)
        ensures
            is_found(r, find_quorum::<V, P>(self@, node_id@, msgs@, pred.state())),
    {
        let mut so_far = NodeSet::new();
        so_far.insert(node_id.duplicate());
        proof {
            lemma_members_view(self.members@);
            assert(members_view(self.members@).skip(0) =~= self@.members);
        }
        let depth = msgs.len();
        quorum_walk(self.threshold, &self.members, 0, msgs, pred, so_far, depth)
    }

    /// Searches for a set of senders of `msgs` that blocks this quorum set.
    pub fn search_blocking_set<V: Value, P: Predicate<V>>(&self, msgs: &MsgMap<V>, pred: P) -> (r:
        Option<(NodeSet, P)>)
        ensures
            is_found(r, find_blocking_set::<V, P>(self@, msgs@, pred.state())),
    {
        proof {
            lemma_members_view(self.members@);
            assert(members_view(self.members@).skip(0) =~= self@.members);
        }
        match needed_to_block(self) {
            Some(k) => blocking_walk(k, &self.members, 0, msgs, pred, NodeSet::new()),
            None => None,
        }
    }

    /// The quorum that [`QuorumSet::search_quorum`] finds with the
    /// predicate after it. Where there is none, the node alone with the
    /// predicate as it was given.
    #[allow(non_snake_case)]
    pub fn findQuorum<V: Value, P: Predicate<V>>(
        &self,
        node_id: &NodeID,
        msgs: &MsgMap<V>,
        pred: P,
    ) -> (r: (NodeSet, P))
        ensures
            match find_quorum::<V, P>(self@, node_id@, msgs@, pred.state()) {
                Some((nodes, state)) => r.0@ == nodes && r.1.state() == state,
                None => r.0@ == Set::<NodeIdView>::empty().insert(node_id@) && r.1.state()
                    == pred.state(),
            },
    {
        let kept = pred.duplicate();
        match self.search_quorum(node_id, msgs, pred) {
            Some(found) => found,
            None => {
                let mut alone = NodeSet::new();
                alone.insert(node_id.duplicate());
                (alone, kept)
            },
        }
    }

    /// The blocking set that [`QuorumSet::search_blocking_set`] finds with
    /// the predicate after it. Where there is none, the empty set with the
    /// predicate as it was given.
    #[allow(non_snake_case)]
    pub fn findBlockingSet<V: Value, P: Predicate<V>>(&self, msgs: &MsgMap<V>, pred: P) -> (r: (
        NodeSet,
        P,
    ))
        ensures
            match find_blocking_set::<V, P>(self@, msgs@, pred.state()) {
                Some((nodes, state)) => r.0@ == nodes && r.1.state() == state,
                None => r.0@ == Set::<NodeIdView>::empty() && r.1.state() == pred.state(),
            },
    {
        let kept = pred.duplicate();
        match self.search_blocking_set(msgs, pred) {
            Some(found) => found,
            None => (NodeSet::new(), kept),
        }
    }
}

/// The searches go by the quorum set, the node, the latest messages and the
/// predicate alone: equal ones give equal results.
pub proof fn lemma_search_is_deterministic<V: Value, P: Predicate<V>>(
    q1: QuorumSetView,
    q2: QuorumSetView,
    local1: NodeIdView,
    local2: NodeIdView,
    msgs1: Map<NodeIdView, MsgView>,
    msgs2: Map<NodeIdView, MsgView>,
    state1: P::State,
    state2: P::State,
)
    requires
        q1 == q2,
        local1 == local2,
        msgs1 == msgs2,
        state1 == state2,
    ensures
        find_quorum::<V, P>(q1, local1, msgs1, state1) == find_quorum::<V, P>(
            q2,
            local2,
            msgs2,
            state2,
        ),
        find_blocking_set::<V, P>(q1, msgs1, state1) == find_blocking_set::<V, P>(
            q2,
            msgs2,
            state2,
        ),
{
}

/// How many of the members `nodes` satisfies.
pub open spec fn satisfied_count(ms: Seq<MemberView>, nodes: Set<NodeIdView>) -> nat
    decreases ms,
{
    if ms.len() == 0 {
        0
    } else {
        (if member_satisfied(ms[0], nodes) {
            1nat
        } else {
            0nat
        }) + satisfied_count(ms.drop_first(), nodes)
    }
}

/// Whether `nodes` satisfies the member: it holds the node, or it
/// satisfies the nested set.
pub open spec fn member_satisfied(m: MemberView, nodes: Set<NodeIdView>) -> bool
    decreases m,
{
    match m {
        MemberView::Node(n) => nodes.contains(n),
        MemberView::InnerSet(q) => slice_satisfied(q, nodes),
    }
}

/// Whether `nodes` satisfies the quorum set: as many of its members as the
/// threshold asks for.
pub open spec fn slice_satisfied(q: QuorumSetView, nodes: Set<NodeIdView>) -> bool
    decreases q,
{
    satisfied_count(q.members, nodes) >= q.threshold
}

/// Whether `nodes` is a quorum for the node `local` with the quorum set
/// `q`: it holds `local` and satisfies `q`, and every other node in it has
/// sent a message and has its own quorum set satisfied.
pub open spec fn is_quorum(
    nodes: Set<NodeIdView>,
    local: NodeIdView,
    q: QuorumSetView,
    msgs: Map<NodeIdView, MsgView>,
) -> bool {
    &&& nodes.contains(local)
    &&& slice_satisfied(q, nodes)
    &&& forall|n: NodeIdView| #[trigger]
        nodes.contains(n) && n != local ==> msgs.contains_key(n) && slice_satisfied(
            msgs[n].quorum_set,
            nodes,
        )
}

/// A larger set of nodes satisfies whatever a smaller one satisfies.
pub proof fn lemma_satisfied_grows(ms: Seq<MemberView>, small: Set<NodeIdView>, large: Set<NodeIdView>)
    requires
        small.subset_of(large),
    ensures
        satisfied_count(ms, small) <= satisfied_count(ms, large),
    decreases ms,
{
    if ms.len() > 0 {
        lemma_satisfied_grows(ms.drop_first(), small, large);
        match ms[0] {
            MemberView::Node(n) => {
                assert(member_satisfied(ms[0], small) ==> member_satisfied(ms[0], large));
            },
            MemberView::InnerSet(q) => {
                lemma_satisfied_grows(q.members, small, large);
                assert(member_satisfied(ms[0], small) == slice_satisfied(q, small));
                assert(member_satisfied(ms[0], large) == slice_satisfied(q, large));
                assert(member_satisfied(ms[0], small) ==> member_satisfied(ms[0], large));
            },
        }
    }
}

proof fn lemma_quorum_search_sound<V: Value, P: Predicate<V>>(
    threshold: u32,
    members: Seq<MemberView>,
    msgs: Map<NodeIdView, MsgView>,
    state: P::State,
    so_far: Set<NodeIdView>,
    depth: nat,
)
    ensures
        quorum_search::<V, P>(threshold, members, msgs, state, so_far, depth) matches Some(
            (nodes, _),
        ) ==> {
            &&& so_far.subset_of(nodes)
            &&& satisfied_count(members, nodes) >= threshold
            &&& forall|n: NodeIdView| #[trigger]
                nodes.contains(n) && !so_far.contains(n) ==> msgs.contains_key(n)
                    && slice_satisfied(msgs[n].quorum_set, nodes)
        },
    decreases depth, members_size(members),
{
    let found = quorum_search::<V, P>(threshold, members, msgs, state, so_far, depth);
    if threshold == 0 || threshold > members.len() || found is None {
        return ;
    }
    lemma_smaller_members(members);
    let rest = members.drop_first();
    let less = (threshold - 1) as u32;
    let found_pair = found->0;
    let all = found_pair.0;
    let skipped = quorum_search::<V, P>(threshold, rest, msgs, state, so_far, depth);
    lemma_quorum_search_sound::<V, P>(threshold, rest, msgs, state, so_far, depth);
    assert(satisfied_count(members, all) == (if member_satisfied(members[0], all) {
        1nat
    } else {
        0nat
    }) + satisfied_count(rest, all));
    match members[0] {
        MemberView::Node(n) => {
            if so_far.contains(n) {
                let taken = quorum_search::<V, P>(less, rest, msgs, state, so_far, depth);
                lemma_quorum_search_sound::<V, P>(less, rest, msgs, state, so_far, depth);
                if taken is Some {
                    assert(found == taken);
                    assert(all.contains(n));
                    assert(member_satisfied(members[0], all));
                } else {
                    assert(found == skipped);
                }
            } else if depth > 0 && msgs.contains_key(n) && P::step(state, msgs[n]) is Some {
                let s1 = P::step(state, msgs[n])->0;
                let q = msgs[n].quorum_set;
                let inner = quorum_search::<V, P>(
                    q.threshold,
                    q.members,
                    msgs,
                    s1,
                    so_far.insert(n),
                    (depth - 1) as nat,
                );
                lemma_quorum_search_sound::<V, P>(
                    q.threshold,
                    q.members,
                    msgs,
                    s1,
                    so_far.insert(n),
                    (depth - 1) as nat,
                );
                if inner is Some {
                    let inner_pair = inner->0;
                    let nodes = inner_pair.0;
                    let s2 = inner_pair.1;
                    let taken = quorum_search::<V, P>(less, rest, msgs, s2, nodes, depth);
                    lemma_quorum_search_sound::<V, P>(less, rest, msgs, s2, nodes, depth);
                    if taken is Some {
                        assert(found == taken);
                        assert(so_far.insert(n).contains(n));
                        assert(nodes.contains(n));
                        assert(all.contains(n));
                        assert(member_satisfied(members[0], all));
                        assert(slice_satisfied(q, nodes));
                        assert forall|m: NodeIdView| #[trigger]
                            all.contains(m) && !so_far.contains(m) implies msgs.contains_key(m)
                            && slice_satisfied(msgs[m].quorum_set, all) by {
                            if nodes.contains(m) {
                                lemma_satisfied_grows(msgs[m].quorum_set.members, nodes, all);
                                if m != n {
                                    assert(!so_far.insert(n).contains(m));
                                }
                                assert(slice_satisfied(msgs[m].quorum_set, nodes));
                            }
                        }
                        assert forall|m: NodeIdView| so_far.contains(m) implies all.contains(m) by {
                            assert(so_far.insert(n).contains(m));
                        }
                    } else {
                        assert(found == skipped);
                    }
                } else {
                    assert(found == skipped);
                }
            } else {
                assert(found == skipped);
            }
        },
        MemberView::InnerSet(q) => {
            let inner = quorum_search::<V, P>(q.threshold, q.members, msgs, state, so_far, depth);
            lemma_quorum_search_sound::<V, P>(q.threshold, q.members, msgs, state, so_far, depth);
            if inner is Some {
                let inner_pair = inner->0;
                let nodes = inner_pair.0;
                let s2 = inner_pair.1;
                let taken = quorum_search::<V, P>(less, rest, msgs, s2, nodes, depth);
                lemma_quorum_search_sound::<V, P>(less, rest, msgs, s2, nodes, depth);
                if taken is Some {
                    assert(found == taken);
                    lemma_satisfied_grows(q.members, nodes, all);
                    assert(slice_satisfied(q, nodes));
                    assert(member_satisfied(members[0], all));
                    assert forall|m: NodeIdView| #[trigger]
                        all.contains(m) && !so_far.contains(m) implies msgs.contains_key(m)
                        && slice_satisfied(msgs[m].quorum_set, all) by {
                        if nodes.contains(m) {
                            lemma_satisfied_grows(msgs[m].quorum_set.members, nodes, all);
                            assert(slice_satisfied(msgs[m].quorum_set, nodes));
                        }
                    }
                } else {
                    assert(found == skipped);
                }
            } else {
                assert(found == skipped);
            }
        },
    }
}

/// What the search for a quorum finds is a quorum: it holds the local
/// node and satisfies its quorum set, and every other node in it has sent a
/// message and has its own quorum set satisfied by the nodes found.
pub proof fn lemma_found_quorum_is_quorum<V: Value, P: Predicate<V>>(
    q: QuorumSetView,
    local: NodeIdView,
    msgs: Map<NodeIdView, MsgView>,
    state: P::State,
)
    ensures
        find_quorum::<V, P>(q, local, msgs, state) matches Some((nodes, _)) ==> is_quorum(
            nodes,
            local,
            q,
            msgs,
        ),
{
    lemma_quorum_search_sound::<V, P>(
        q.threshold,
        q.members,
        msgs,
        state,
        Set::<NodeIdView>::empty().insert(local),
        msgs.dom().len(),
    );
}

/// How many of the members `nodes` blocks.
pub open spec fn blocked_count(ms: Seq<MemberView>, nodes: Set<NodeIdView>) -> nat
    decreases ms,
{
    if ms.len() == 0 {
        0
    } else {
        (if member_blocked(ms[0], nodes) {
            1nat
        } else {
            0nat
        }) + blocked_count(ms.drop_first(), nodes)
    }
}

/// Whether `nodes` blocks the member: it holds the node, or it blocks the
/// nested set.
pub open spec fn member_blocked(m: MemberView, nodes: Set<NodeIdView>) -> bool
    decreases m,
{
    match m {
        MemberView::Node(n) => nodes.contains(n),
        MemberView::InnerSet(q) => slice_blocked(q, nodes),
    }
}

/// Whether `nodes` blocks the quorum set: it blocks more members than may
/// fail.
pub open spec fn slice_blocked(q: QuorumSetView, nodes: Set<NodeIdView>) -> bool
    decreases q,
{
    match blocking_need(q) {
        Some(k) => blocked_count(q.members, nodes) >= k,
        None => false,
    }
}

/// A larger set of nodes blocks whatever a smaller one blocks.
pub proof fn lemma_blocked_grows(ms: Seq<MemberView>, small: Set<NodeIdView>, large: Set<NodeIdView>)
    requires
        small.subset_of(large),
    ensures
        blocked_count(ms, small) <= blocked_count(ms, large),
    decreases ms,
{
    if ms.len() > 0 {
        lemma_blocked_grows(ms.drop_first(), small, large);
        match ms[0] {
            MemberView::Node(n) => {
                assert(member_blocked(ms[0], small) ==> member_blocked(ms[0], large));
            },
            MemberView::InnerSet(q) => {
                lemma_blocked_grows(q.members, small, large);
                assert(member_blocked(ms[0], small) == slice_blocked(q, small));
                assert(member_blocked(ms[0], large) == slice_blocked(q, large));
                assert(member_blocked(ms[0], small) ==> member_blocked(ms[0], large));
            },
        }
    }
}

proof fn lemma_blocking_search_sound<V: Value, P: Predicate<V>>(
    needed: nat,
    members: Seq<MemberView>,
    msgs: Map<NodeIdView, MsgView>,
    state: P::State,
    so_far: Set<NodeIdView>,
)
    ensures
        blocking_search::<V, P>(needed, members, msgs, state, so_far) matches Some((nodes, _)) ==> {
            &&& so_far.subset_of(nodes)
            &&& blocked_count(members, nodes) >= needed
            &&& forall|n: NodeIdView| #[trigger]
                nodes.contains(n) && !so_far.contains(n) ==> msgs.contains_key(n)
        },
    decreases members_size(members),
{
    let found = blocking_search::<V, P>(needed, members, msgs, state, so_far);
    if needed == 0 || needed > members.len() || found is None {
        return ;
    }
    lemma_smaller_members(members);
    let rest = members.drop_first();
    let less = (needed - 1) as nat;
    let found_pair = found->0;
    let all = found_pair.0;
    let skipped = blocking_search::<V, P>(needed, rest, msgs, state, so_far);
    lemma_blocking_search_sound::<V, P>(needed, rest, msgs, state, so_far);
    assert(blocked_count(members, all) == (if member_blocked(members[0], all) {
        1nat
    } else {
        0nat
    }) + blocked_count(rest, all));
    match members[0] {
        MemberView::Node(n) => {
            if msgs.contains_key(n) && P::step(state, msgs[n]) is Some {
                let s1 = P::step(state, msgs[n])->0;
                let taken = blocking_search::<V, P>(less, rest, msgs, s1, so_far.insert(n));
                lemma_blocking_search_sound::<V, P>(less, rest, msgs, s1, so_far.insert(n));
                if taken is Some {
                    assert(found == taken);
                    assert(so_far.insert(n).contains(n));
                    assert(all.contains(n));
                    assert(member_blocked(members[0], all));
                    assert forall|m: NodeIdView| so_far.contains(m) implies all.contains(m) by {
                        assert(so_far.insert(n).contains(m));
                    }
                    assert forall|m: NodeIdView| #[trigger]
                        all.contains(m) && !so_far.contains(m) implies msgs.contains_key(m) by {
                        if m != n {
                            assert(!so_far.insert(n).contains(m));
                        }
                    }
                } else {
                    assert(found == skipped);
                }
            } else {
                assert(found == skipped);
            }
        },
        MemberView::InnerSet(q) => {
            if blocking_need(q) is Some {
                let k = blocking_need(q)->0;
                let inner = blocking_search::<V, P>(k, q.members, msgs, state, so_far);
                lemma_blocking_search_sound::<V, P>(k, q.members, msgs, state, so_far);
                if inner is Some {
                    let inner_pair = inner->0;
                    let nodes = inner_pair.0;
                    let s2 = inner_pair.1;
                    let taken = blocking_search::<V, P>(less, rest, msgs, s2, nodes);
                    lemma_blocking_search_sound::<V, P>(less, rest, msgs, s2, nodes);
                    if taken is Some {
                        assert(found == taken);
                        lemma_blocked_grows(q.members, nodes, all);
                        assert(slice_blocked(q, nodes));
                        assert(slice_blocked(q, all));
                        assert(member_blocked(members[0], all));
                    } else {
                        assert(found == skipped);
                    }
                } else {
                    assert(found == skipped);
                }
            } else {
                assert(found == skipped);
            }
        },
    }
}

/// What the search for a blocking set finds blocks the quorum set, and
/// every node in it has sent a message.
pub proof fn lemma_found_blocking_set_blocks<V: Value, P: Predicate<V>>(
    q: QuorumSetView,
    msgs: Map<NodeIdView, MsgView>,
    state: P::State,
)
    ensures
        find_blocking_set::<V, P>(q, msgs, state) matches Some((nodes, _)) ==> slice_blocked(
            q,
            nodes,
        ) && forall|n: NodeIdView| #[trigger] nodes.contains(n) ==> msgs.contains_key(n),
{
    if blocking_need(q) is Some {
        lemma_blocking_search_sound::<V, P>(
            blocking_need(q)->0,
            q.members,
            msgs,
            state,
            Set::empty(),
        );
    }
}

proof fn lemma_quorum_search_passes<V: Value, F: MsgTest<V>>(
    threshold: u32,
    members: Seq<MemberView>,
    msgs: Map<NodeIdView, MsgView>,
    test: F,
    so_far: Set<NodeIdView>,
    depth: nat,
)
    ensures
        quorum_search::<V, FuncPredicate<F>>(threshold, members, msgs, test, so_far, depth) matches Some(
            (nodes, after),
        ) ==> after == test && forall|n: NodeIdView| #[trigger]
            nodes.contains(n) && !so_far.contains(n) ==> msgs.contains_key(n) && test.holds(
                msgs[n],
            ),
    decreases depth, members_size(members),
{
    let found = quorum_search::<V, FuncPredicate<F>>(threshold, members, msgs, test, so_far, depth);
    if threshold == 0 || threshold > members.len() || found is None {
        return ;
    }
    lemma_smaller_members(members);
    let rest = members.drop_first();
    let less = (threshold - 1) as u32;
    lemma_quorum_search_passes::<V, F>(threshold, rest, msgs, test, so_far, depth);
    lemma_quorum_search_passes::<V, F>(less, rest, msgs, test, so_far, depth);
    match members[0] {
        MemberView::Node(n) => {
            if !so_far.contains(n) && depth > 0 && msgs.contains_key(n) && test.holds(msgs[n]) {
                let q = msgs[n].quorum_set;
                let inner = quorum_search::<V, FuncPredicate<F>>(
                    q.threshold,
                    q.members,
                    msgs,
                    test,
                    so_far.insert(n),
                    (depth - 1) as nat,
                );
                lemma_quorum_search_passes::<V, F>(
                    q.threshold,
                    q.members,
                    msgs,
                    test,
                    so_far.insert(n),
                    (depth - 1) as nat,
                );
                if inner is Some {
                    let inner_pair = inner->0;
                    lemma_quorum_search_passes::<V, F>(less, rest, msgs, test, inner_pair.0, depth);
                }
            }
        },
        MemberView::InnerSet(q) => {
            let inner = quorum_search::<V, FuncPredicate<F>>(
                q.threshold,
                q.members,
                msgs,
                test,
                so_far,
                depth,
            );
            lemma_quorum_search_passes::<V, F>(q.threshold, q.members, msgs, test, so_far, depth);
            if inner is Some {
                let inner_pair = inner->0;
                lemma_quorum_search_passes::<V, F>(less, rest, msgs, test, inner_pair.0, depth);
            }
        },
    }
}

/// With a fixed test for a predicate, every node of a quorum found, but for
/// the local node, has sent a message that passes the test.
pub proof fn lemma_found_quorum_passes<V: Value, F: MsgTest<V>>(
    q: QuorumSetView,
    local: NodeIdView,
    msgs: Map<NodeIdView, MsgView>,
    test: F,
)
    ensures
        find_quorum::<V, FuncPredicate<F>>(q, local, msgs, test) matches Some((nodes, _))
            ==> forall|n: NodeIdView| #[trigger]
            nodes.contains(n) && n != local ==> msgs.contains_key(n) && test.holds(msgs[n]),
{
    lemma_quorum_search_passes::<V, F>(
        q.threshold,
        q.members,
        msgs,
        test,
        Set::<NodeIdView>::empty().insert(local),
        msgs.dom().len(),
    );
}

proof fn lemma_blocking_search_passes<V: Value, F: MsgTest<V>>(
    needed: nat,
    members: Seq<MemberView>,
    msgs: Map<NodeIdView, MsgView>,
    test: F,
    so_far: Set<NodeIdView>,
)
    ensures
        blocking_search::<V, FuncPredicate<F>>(needed, members, msgs, test, so_far) matches Some(
            (nodes, after),
        ) ==> after == test && forall|n: NodeIdView| #[trigger]
            nodes.contains(n) && !so_far.contains(n) ==> msgs.contains_key(n) && test.holds(
                msgs[n],
            ),
    decreases members_size(members),
{
    let found = blocking_search::<V, FuncPredicate<F>>(needed, members, msgs, test, so_far);
    if needed == 0 || needed > members.len() || found is None {
        return ;
    }
    lemma_smaller_members(members);
    let rest = members.drop_first();
    let less = (needed - 1) as nat;
    lemma_blocking_search_passes::<V, F>(needed, rest, msgs, test, so_far);
    match members[0] {
        MemberView::Node(n) => {
            if msgs.contains_key(n) && test.holds(msgs[n]) {
                lemma_blocking_search_passes::<V, F>(less, rest, msgs, test, so_far.insert(n));
            }
        },
        MemberView::InnerSet(q) => {
            if blocking_need(q) is Some {
                let k = blocking_need(q)->0;
                let inner = blocking_search::<V, FuncPredicate<F>>(k, q.members, msgs, test, so_far);
                lemma_blocking_search_passes::<V, F>(k, q.members, msgs, test, so_far);
                if inner is Some {
                    let inner_pair = inner->0;
                    lemma_blocking_search_passes::<V, F>(less, rest, msgs, test, inner_pair.0);
                }
            }
        },
    }
}

/// With a fixed test for a predicate, every node of a blocking set found
/// has sent a message that passes the test.
pub proof fn lemma_found_blocking_set_passes<V: Value, F: MsgTest<V>>(
    q: QuorumSetView,
    msgs: Map<NodeIdView, MsgView>,
    test: F,
)
    ensures
        find_blocking_set::<V, FuncPredicate<F>>(q, msgs, test) matches Some((nodes, _))
            ==> forall|n: NodeIdView| #[trigger]
            nodes.contains(n) ==> msgs.contains_key(n) && test.holds(msgs[n]),
{
    if blocking_need(q) is Some {
        lemma_blocking_search_passes::<V, F>(
            blocking_need(q)->0,
            q.members,
            msgs,
            test,
            Set::empty(),
        );
    }
}

/// Whether every nested quorum set among the members keeps the rule of
/// [`valid_quorum_set`].
pub open spec fn members_valid(ms: Seq<MemberView>) -> bool {
    forall|i: int|
        0 <= i < ms.len() ==> (#[trigger] ms[i] matches MemberView::InnerSet(q) ==> valid_quorum_set(
            q,
        ))
}

/// Whether none of the members, at whatever depth, is a node of `nodes`.
pub open spec fn avoids(ms: Seq<MemberView>, nodes: Set<NodeIdView>) -> bool
    decreases ms,
{
    forall|i: int|
        0 <= i < ms.len() ==> match #[trigger] ms[i] {
            MemberView::Node(n) => !nodes.contains(n),
            MemberView::InnerSet(q) => avoids(q.members, nodes),
        }
}

proof fn lemma_rest_valid(ms: Seq<MemberView>, nodes: Set<NodeIdView>)
    requires
        ms.len() > 0,
        members_valid(ms),
    ensures
        members_valid(ms.drop_first()),
        avoids(ms, nodes) ==> avoids(ms.drop_first(), nodes),
        ms[0] matches MemberView::InnerSet(q) ==> members_valid(q.members) && q.threshold >= 1
            && blocking_need(q) is Some && blocking_need(q)->0 >= 1 && (avoids(ms, nodes)
            ==> avoids(q.members, nodes)),
{
    let rest = ms.drop_first();
    assert forall|i: int| 0 <= i < rest.len() implies (#[trigger] rest[i] matches MemberView::InnerSet(
        q,
    ) ==> valid_quorum_set(q)) by {
        assert(rest[i] == ms[i + 1]);
    }
    if avoids(ms, nodes) {
        assert forall|i: int| 0 <= i < rest.len() implies match #[trigger] rest[i] {
            MemberView::Node(n) => !nodes.contains(n),
            MemberView::InnerSet(q) => avoids(q.members, nodes),
        } by {
            assert(rest[i] == ms[i + 1]);
        }
    }
    match ms[0] {
        MemberView::InnerSet(q) => {
            assert(valid_quorum_set(q));
        },
        _ => {},
    }
}

/// Without messages nothing blocks: where no peer has said anything, the
/// search for a blocking set finds none.
pub proof fn lemma_no_blocking_set_without_messages<V: Value, P: Predicate<V>>(
    needed: nat,
    members: Seq<MemberView>,
    state: P::State,
    so_far: Set<NodeIdView>,
)
    requires
        needed >= 1,
        members_valid(members),
    ensures
        blocking_search::<V, P>(needed, members, Map::empty(), state, so_far) is None,
    decreases members_size(members),
{
    if needed <= members.len() {
        lemma_smaller_members(members);
        lemma_rest_valid(members, so_far);
        let rest = members.drop_first();
        lemma_no_blocking_set_without_messages::<V, P>(needed, rest, state, so_far);
        match members[0] {
            MemberView::Node(n) => {},
            MemberView::InnerSet(q) => {
                lemma_no_blocking_set_without_messages::<V, P>(
                    blocking_need(q)->0,
                    q.members,
                    state,
                    so_far,
                );
            },
        }
    }
}

/// Without messages there is no quorum but the nodes already taken: where
/// no peer has said anything and the members ask for other nodes than
/// those, the search for a quorum finds none.
pub proof fn lemma_no_quorum_without_messages<V: Value, P: Predicate<V>>(
    threshold: u32,
    members: Seq<MemberView>,
    state: P::State,
    so_far: Set<NodeIdView>,
    depth: nat,
)
    requires
        threshold >= 1,
        members_valid(members),
        avoids(members, so_far),
    ensures
        quorum_search::<V, P>(threshold, members, Map::empty(), state, so_far, depth) is None,
    decreases depth, members_size(members),
{
    if threshold <= members.len() {
        lemma_smaller_members(members);
        lemma_rest_valid(members, so_far);
        let rest = members.drop_first();
        lemma_no_quorum_without_messages::<V, P>(threshold, rest, state, so_far, depth);
        match members[0] {
            MemberView::Node(n) => {},
            MemberView::InnerSet(q) => {
                lemma_no_quorum_without_messages::<V, P>(
                    q.threshold,
                    q.members,
                    state,
                    so_far,
                    depth,
                );
            },
        }
    }
}

} // verus!
