//! The canonical bytes of a message: every field in a fixed order, every
//! number big-endian, every list with its length before it, every set in
//! ascending order.

use crate::ballot::{Ballot, BallotView};
use crate::msg::{
    option_view, CommitPayload, CommitView, ExternalizePayload, ExternalizeView, Msg, MsgView,
    NominatePayload, NominateView, PreparePayload, PrepareView, Topic, TopicView,
};
use crate::node_id::{NodeID, NodeIdView};
use crate::quorum_set::{
    lemma_members_view, member_view, MemberView, QuorumSet, QuorumSetMember, QuorumSetView,
};
use crate::value::{keys_of, u32_key, u32_to_bytes, u64_key, u64_to_bytes, Value};
use crate::value_set::{sorted_keys, ValueSet};
use vstd::prelude::*;
use vstd::string::StrSliceExecFns;

verus! {

/// A length as eight bytes.
pub open spec fn encode_len(n: nat) -> Seq<u8> {
    u64_key(n as u64)
}

/// A byte string with its length before it.
pub open spec fn encode_bytes(b: Seq<u8>) -> Seq<u8> {
    encode_len(b.len()) + b
}

/// The keys of a list one after the other, each with its length.
pub open spec fn encode_each(keys: Seq<Seq<u8>>) -> Seq<u8>
    decreases keys.len(),
{
    if keys.len() == 0 {
        Seq::empty()
    } else {
        encode_each(keys.drop_last()) + encode_bytes(keys.last())
    }
}

/// A list of keys: how many, then each.
pub open spec fn encode_keys(keys: Seq<Seq<u8>>) -> Seq<u8> {
    encode_len(keys.len()) + encode_each(keys)
}

/// A set of keys, in ascending order.
pub open spec fn encode_set(keys: Set<Seq<u8>>) -> Seq<u8> {
    encode_keys(sorted_keys(keys))
}

/// A ballot: the counter, then the values.
pub open spec fn encode_ballot(b: BallotView) -> Seq<u8> {
    u32_key(b.n) + encode_keys(b.x)
}

/// A ballot that may be absent: a zero byte, or a one byte and the ballot.
pub open spec fn encode_option(b: Option<BallotView>) -> Seq<u8> {
    match b {
        None => seq![0u8],
        Some(b) => seq![1u8] + encode_ballot(b),
    }
}

/// A node identifier: the address in UTF-8, then the key.
pub open spec fn encode_node_id(id: NodeIdView) -> Seq<u8> {
    encode_bytes(vstd::utf8::encode_utf8(id.responder_id)) + encode_bytes(id.public_key)
}

/// A member of a quorum set: a zero byte and the node, or a one byte and
/// the nested set.
pub open spec fn encode_member(m: MemberView) -> Seq<u8>
    decreases m,
{
    match m {
        MemberView::Node(id) => seq![0u8] + encode_node_id(id),
        MemberView::InnerSet(q) => seq![1u8] + encode_quorum_set(q),
    }
}

/// The members of a list one after the other.
pub open spec fn encode_members(ms: Seq<MemberView>) -> Seq<u8>
    decreases ms,
{
    if ms.len() == 0 {
        Seq::empty()
    } else {
        encode_members(ms.drop_last()) + encode_member(ms.last())
    }
}

/// A quorum set: the threshold, how many members, then each.
pub open spec fn encode_quorum_set(q: QuorumSetView) -> Seq<u8>
    decreases q,
{
    u32_key(q.threshold) + encode_len(q.members.len()) + encode_members(q.members)
}

/// A nominate statement: the votes, then the accepted values.
pub open spec fn encode_nominate(n: NominateView) -> Seq<u8> {
    encode_set(n.x) + encode_set(n.y)
}

/// A prepare statement, field by field.
pub open spec fn encode_prepare(p: PrepareView) -> Seq<u8> {
    encode_ballot(p.b) + encode_option(p.p) + encode_option(p.pp) + u32_key(p.cn) + u32_key(p.hn)
}

/// A commit statement, field by field.
pub open spec fn encode_commit(c: CommitView) -> Seq<u8> {
    encode_ballot(c.b) + u32_key(c.pn) + u32_key(c.cn) + u32_key(c.hn)
}

/// An externalize statement, field by field.
pub open spec fn encode_externalize(e: ExternalizeView) -> Seq<u8> {
    encode_ballot(e.c) + u32_key(e.hn)
}

/// A topic: a byte for its kind, then its parts.
pub open spec fn encode_topic(t: TopicView) -> Seq<u8> {
    match t {
        TopicView::Nominate(n) => seq![0u8] + encode_nominate(n),
        TopicView::NominatePrepare(n, p) => seq![1u8] + encode_nominate(n) + encode_prepare(p),
        TopicView::Prepare(p) => seq![2u8] + encode_prepare(p),
        TopicView::Commit(c) => seq![3u8] + encode_commit(c),
        TopicView::Externalize(e) => seq![4u8] + encode_externalize(e),
    }
}

/// A message: the sender, its quorum set, the slot, the topic.
pub open spec fn encode_msg(m: MsgView) -> Seq<u8> {
    encode_node_id(m.sender_id) + encode_quorum_set(m.quorum_set) + u64_key(m.slot_index)
        + encode_topic(m.topic)
}

/// Appends the bytes of `more` to `out`.
fn put(out: &mut Vec<u8>, more: Vec<u8>)
    ensures
        final(out)@ == old(out)@ + more@,
{
    let mut more = more;
    out.append(&mut more);
}

fn put_len(out: &mut Vec<u8>, n: usize)
    ensures
        final(out)@ == old(out)@ + encode_len(n as nat),
{
    put(out, u64_to_bytes(n as u64));
}

fn put_bytes(out: &mut Vec<u8>, b: &Vec<u8>)
    ensures
        final(out)@ == old(out)@ + encode_bytes(b@),
{
    put_len(out, b.len());
    put(out, crate::node_id::copy_bytes(b));
    assert(out@ =~= old(out)@ + encode_bytes(b@));
}

fn put_values<V: Value>(out: &mut Vec<u8>, values: &Vec<V>)
    ensures
        final(out)@ == old(out)@ + encode_keys(keys_of(values@)),
{
    let ghost keys = keys_of(values@);
    put_len(out, values.len());
    let mut i: usize = 0;
    assert(keys.take(0) =~= Seq::<Seq<u8>>::empty());
    assert(out@ =~= old(out)@ + encode_len(keys.len()) + encode_each(keys.take(0)));
    while i < values.len()
        invariant
            i <= values.len(),
            keys == keys_of(values@),
            out@ == old(out)@ + encode_len(keys.len()) + encode_each(keys.take(i as int)),
        decreases values.len() - i,
    {
        let k = values[i].to_key();
        put_bytes(out, &k);
        proof {
            assert(keys.take(i + 1).drop_last() =~= keys.take(i as int));
            assert(keys.take(i + 1).last() == keys[i as int]);
            assert(out@ =~= old(out)@ + encode_len(keys.len()) + encode_each(keys.take(i + 1)));
        }
        i = i + 1;
    }
    assert(keys.take(i as int) =~= keys);
    assert(out@ =~= old(out)@ + encode_keys(keys));
}

fn put_set<V: Value>(out: &mut Vec<u8>, values: &ValueSet<V>)
    ensures
        final(out)@ == old(out)@ + encode_set(values@),
{
    proof {
        use_type_invariant(values);
        values.lemma_keys_sorted();
    }
    let listed = values.to_vec();
    put_values(out, &listed);
}

fn put_ballot<V: Value>(out: &mut Vec<u8>, b: &Ballot<V>)
    ensures
        final(out)@ == old(out)@ + encode_ballot(b@),
{
    put(out, u32_to_bytes(b.N));
    put_values(out, &b.X);
    assert(out@ =~= old(out)@ + encode_ballot(b@));
}

fn put_option<V: Value>(out: &mut Vec<u8>, b: &Option<Ballot<V>>)
    ensures
        final(out)@ == old(out)@ + encode_option(option_view(*b)),
{
    match b {
        None => {
            out.push(0u8);
            assert(out@ =~= old(out)@ + seq![0u8]);
        },
        Some(b) => {
            out.push(1u8);
            put_ballot(out, b);
            assert(out@ =~= old(out)@ + (seq![1u8] + encode_ballot(b@)));
        },
    }
}

fn put_node_id(out: &mut Vec<u8>, id: &NodeID)
    ensures
        final(out)@ == old(out)@ + encode_node_id(id@),
{
    let name = id.responder_id.as_str().as_bytes_vec();
    put_bytes(out, &name);
    put_bytes(out, &id.public_key);
    assert(out@ =~= old(out)@ + encode_node_id(id@));
}

fn put_quorum_set(out: &mut Vec<u8>, q: &QuorumSet)
    ensures
        final(out)@ == old(out)@ + encode_quorum_set(q@),
    decreases q,
{
    proof {
        lemma_members_view(q.members@);
    }
    let ghost ms = q@.members;
    put(out, u32_to_bytes(q.threshold));
    put_len(out, q.members.len());
    let ghost head = old(out)@ + u32_key(q.threshold) + encode_len(ms.len());
    let mut i: usize = 0;
    assert(ms.take(0) =~= Seq::<MemberView>::empty());
    assert(out@ =~= head + encode_members(ms.take(0)));
    while i < q.members.len()
        invariant
            i <= q.members.len(),
            ms == q@.members,
            ms.len() == q.members.len(),
            forall|j: int| 0 <= j < ms.len() ==> (#[trigger] ms[j]) == member_view(q.members@[j]),
            out@ == head + encode_members(ms.take(i as int)),
        decreases q.members.len() - i,
    {
        match &q.members[i] {
            QuorumSetMember::Node(id) => {
                out.push(0u8);
                put_node_id(out, id);
                assert(ms[i as int] == MemberView::Node(id@));
                assert(out@ =~= head + encode_members(ms.take(i as int)) + encode_member(
                    ms[i as int],
                ));
            },
            QuorumSetMember::InnerSet(inner) => {
                out.push(1u8);
                put_quorum_set(out, inner);
                assert(ms[i as int] == MemberView::InnerSet(inner@));
                assert(out@ =~= head + encode_members(ms.take(i as int)) + encode_member(
                    ms[i as int],
                ));
            },
        }
        proof {
            assert(ms.take(i + 1).drop_last() =~= ms.take(i as int));
            assert(ms.take(i + 1).last() == ms[i as int]);
            assert(out@ =~= head + encode_members(ms.take(i + 1)));
        }
        i = i + 1;
    }
    assert(ms.take(i as int) =~= ms);
    assert(out@ =~= old(out)@ + encode_quorum_set(q@));
}

fn put_nominate<V: Value>(out: &mut Vec<u8>, n: &NominatePayload<V>)
    ensures
        final(out)@ == old(out)@ + encode_nominate(n@),
{
    put_set(out, &n.X);
    put_set(out, &n.Y);
    assert(out@ =~= old(out)@ + encode_nominate(n@));
}

fn put_prepare<V: Value>(out: &mut Vec<u8>, p: &PreparePayload<V>)
    ensures
        final(out)@ == old(out)@ + encode_prepare(p@),
{
    put_ballot(out, &p.B);
    put_option(out, &p.P);
    put_option(out, &p.PP);
    put(out, u32_to_bytes(p.CN));
    put(out, u32_to_bytes(p.HN));
    assert(out@ =~= old(out)@ + encode_prepare(p@));
}

fn put_commit<V: Value>(out: &mut Vec<u8>, c: &CommitPayload<V>)
    ensures
        final(out)@ == old(out)@ + encode_commit(c@),
{
    put_ballot(out, &c.B);
    put(out, u32_to_bytes(c.PN));
    put(out, u32_to_bytes(c.CN));
    put(out, u32_to_bytes(c.HN));
    assert(out@ =~= old(out)@ + encode_commit(c@));
}

fn put_externalize<V: Value>(out: &mut Vec<u8>, e: &ExternalizePayload<V>)
    ensures
        final(out)@ == old(out)@ + encode_externalize(e@),
{
    put_ballot(out, &e.C);
    put(out, u32_to_bytes(e.HN));
    assert(out@ =~= old(out)@ + encode_externalize(e@));
}

fn put_topic<V: Value>(out: &mut Vec<u8>, t: &Topic<V>)
    ensures
        final(out)@ == old(out)@ + encode_topic(t@),
{
    match t {
        Topic::Nominate(n) => {
            out.push(0u8);
            put_nominate(out, n);
            assert(out@ =~= old(out)@ + (seq![0u8] + encode_nominate(n@)));
        },
        Topic::NominatePrepare(n, p) => {
            out.push(1u8);
            put_nominate(out, n);
            put_prepare(out, p);
            assert(out@ =~= old(out)@ + (seq![1u8] + encode_nominate(n@) + encode_prepare(p@)));
        },
        Topic::Prepare(p) => {
            out.push(2u8);
            put_prepare(out, p);
            assert(out@ =~= old(out)@ + (seq![2u8] + encode_prepare(p@)));
        },
        Topic::Commit(c) => {
            out.push(3u8);
            put_commit(out, c);
            assert(out@ =~= old(out)@ + (seq![3u8] + encode_commit(c@)));
        },
        Topic::Externalize(e) => {
            out.push(4u8);
            put_externalize(out, e);
            assert(out@ =~= old(out)@ + (seq![4u8] + encode_externalize(e@)));
        },
    }
}

impl<V: Value> Msg<V> {
    /// The canonical bytes of the message.
    pub fn to_bytes(&self) -> (r: Vec<u8>)
        ensures
            r@ == encode_msg(self@),
    {
        let mut out: Vec<u8> = Vec::new();
        put_node_id(&mut out, &self.sender_id);
        put_quorum_set(&mut out, &self.quorum_set);
        put(&mut out, u64_to_bytes(self.slot_index));
        put_topic(&mut out, &self.topic);
        assert(out@ =~= encode_msg(self@));
        out
    }
}

} // verus!
