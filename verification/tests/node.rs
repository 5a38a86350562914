use consensus_scp::ballot::{Ballot, INFINITY};
use consensus_scp::error::ScpError;
use consensus_scp::msg::{
    CommitPayload, ExternalizePayload, Msg, NominatePayload, PreparePayload, Topic,
};
use consensus_scp::node::{Node, ScpNode};
use consensus_scp::quorum_set::QuorumSet;
use consensus_scp::slot_spec::Phase;
use consensus_scp::test_utils::{test_node_id, TrivialCombine, TrivialValidity};
use consensus_scp::value_set::ValueSet;

fn set(values: &[u32]) -> ValueSet<u32> {
    ValueSet::from_vec(values.to_vec())
}

fn two_nodes() -> (
    Node<u32, TrivialValidity, TrivialCombine>,
    Node<u32, TrivialValidity, TrivialCombine>,
) {
    let node1 = Node::new(
        test_node_id(1),
        QuorumSet::new_with_node_ids(1, vec![test_node_id(2)]),
        TrivialValidity,
        TrivialCombine,
        1,
    )
    .expect("node 1");
    let node2 = Node::new(
        test_node_id(2),
        QuorumSet::new_with_node_ids(1, vec![test_node_id(1)]),
        TrivialValidity,
        TrivialCombine,
        1,
    )
    .expect("node 2");
    (node1, node2)
}

fn expect_msg(got: &Msg<u32>, node: &Node<u32, TrivialValidity, TrivialCombine>, topic: Topic<u32>) {
    let want = Msg::new(node.node_id(), node.quorum_set(), 1, topic);
    assert!(got.same(&want));
}

/// Steps through a sequence of messages that allow a two-node network to reach consensus.
#[test]
fn basic_two_node_consensus() {
    let slot_index = 1;
    let (mut node1, mut node2) = two_nodes();

    let values = vec![1000, 2000];
    let msg = node2
        .nominate(set(&values))
        .expect("error handling msg")
        .expect("no msg?");
    expect_msg(
        &msg,
        &node2,
        Topic::Nominate(NominatePayload { X: set(&values), Y: ValueSet::new() }),
    );

    let msg = node1.handle(&msg).expect("error handling msg").expect("no msg?");
    expect_msg(
        &msg,
        &node1,
        Topic::Nominate(NominatePayload { X: ValueSet::new(), Y: set(&values) }),
    );

    let msg = node2.handle(&msg).expect("error handling msg").expect("no msg?");
    expect_msg(
        &msg,
        &node2,
        Topic::NominatePrepare(
            NominatePayload { X: ValueSet::new(), Y: set(&values) },
            PreparePayload { B: Ballot::new(1, &[1000, 2000]), P: None, PP: None, CN: 0, HN: 0 },
        ),
    );

    let msg = node1.handle(&msg).expect("error handling msg").expect("no msg?");
    expect_msg(
        &msg,
        &node1,
        Topic::NominatePrepare(
            NominatePayload { X: ValueSet::new(), Y: set(&values) },
            PreparePayload {
                B: Ballot::new(1, &values),
                P: Some(Ballot::new(1, &values)),
                PP: None,
                CN: 0,
                HN: 0,
            },
        ),
    );

    let msg = node2.handle(&msg).expect("error handling msg").expect("no msg?");
    expect_msg(
        &msg,
        &node2,
        Topic::Prepare(PreparePayload {
            B: Ballot::new(1, &values),
            P: Some(Ballot::new(1, &values)),
            PP: None,
            CN: 1,
            HN: 1,
        }),
    );

    let msg = node1.handle(&msg).expect("error handling msg").expect("no msg?");
    expect_msg(
        &msg,
        &node1,
        Topic::Commit(CommitPayload { B: Ballot::new(1, &values), PN: 1, CN: 1, HN: 1 }),
    );

    let msg = node2.handle(&msg).expect("error handling msg").expect("no msg?");
    expect_msg(
        &msg,
        &node2,
        Topic::Externalize(ExternalizePayload { C: Ballot::new(1, &values), HN: 1 }),
    );

    let msg = node1.handle(&msg).expect("error handling msg").expect("no msg?");
    expect_msg(
        &msg,
        &node1,
        Topic::Externalize(ExternalizePayload { C: Ballot::new(1, &values), HN: INFINITY }),
    );

    assert_eq!(node1.get_externalized_values(slot_index), Some(values.clone()));
    assert_eq!(node2.get_externalized_values(slot_index), Some(values.clone()));
    assert_eq!(node1.current_slot_index(), 2);
    assert_eq!(node2.current_slot_index(), 2);
    assert_eq!(node1.get_externalized_values(2), None);
    assert!(node1.get_slot_metrics().phase == Phase::Nominate);
}

#[test]
fn node_refuses_a_malformed_quorum_set() {
    let made = Node::<u32, TrivialValidity, TrivialCombine>::new(
        test_node_id(1),
        QuorumSet::new_with_node_ids(3, vec![test_node_id(2)]),
        TrivialValidity,
        TrivialCombine,
        1,
    );
    assert!(matches!(made, Err(ScpError::MalformedQuorumSet)));
    let empty = Node::<u32, TrivialValidity, TrivialCombine>::new(
        test_node_id(1),
        QuorumSet::empty(),
        TrivialValidity,
        TrivialCombine,
        1,
    );
    assert!(matches!(empty, Err(ScpError::MalformedQuorumSet)));
}

/// Runs the two nodes through the slot they are at, node 2 proposing
/// `values`, and gives back the last message of node 2 and of node 1.
fn agree(
    node1: &mut Node<u32, TrivialValidity, TrivialCombine>,
    node2: &mut Node<u32, TrivialValidity, TrivialCombine>,
    values: &[u32],
) -> (Msg<u32>, Msg<u32>) {
    let mut msg = node2.nominate(set(values)).expect("nominate").expect("msg");
    let mut last2 = msg.duplicate();
    for step in 0..7 {
        if step % 2 == 0 {
            msg = node1.handle(&msg).expect("handle").expect("msg");
        } else {
            msg = node2.handle(&msg).expect("handle").expect("msg");
            last2 = msg.duplicate();
        }
    }
    (last2, msg)
}

#[test]
fn replayed_externalize_changes_nothing() {
    let (mut node1, mut node2) = two_nodes();
    let mut msg = node2.nominate(set(&[1000, 2000])).expect("nominate").expect("msg");
    for step in 0..6 {
        msg = if step % 2 == 0 {
            node1.handle(&msg).expect("handle").expect("msg")
        } else {
            node2.handle(&msg).expect("handle").expect("msg")
        };
    }
    assert!(matches!(msg.topic, Topic::Externalize(_)));
    assert_eq!(node1.current_slot_index(), 1);
    let first = node1.handle(&msg).expect("handle");
    assert!(first.is_some());
    assert_eq!(node1.current_slot_index(), 2);
    let seen = node1.seen_msg_hashes.len();
    for _ in 0..9 {
        assert!(node1.handle(&msg).expect("handle").is_none());
        assert_eq!(node1.current_slot_index(), 2);
        assert_eq!(node1.externalized_slots.len(), 1);
        assert_eq!(node1.seen_msg_hashes.len(), seen);
        assert_eq!(node1.get_externalized_values(1), Some(vec![1000, 2000]));
    }
}

#[test]
fn handling_twice_emits_once() {
    let (mut node1, mut node2) = two_nodes();
    let msg = node2.nominate(set(&[5])).expect("nominate").expect("msg");
    assert!(node1.handle(&msg).expect("handle").is_some());
    let phase = node1.get_slot_metrics().phase;
    let accepted = node1.get_slot_metrics().num_accepted_nominated;
    assert!(node1.handle(&msg).expect("handle").is_none());
    assert!(node1.get_slot_metrics().phase == phase);
    assert_eq!(node1.get_slot_metrics().num_accepted_nominated, accepted);
    // The same bytes in a fresh message.
    let again = Msg::new(
        msg.sender_id.duplicate(),
        msg.quorum_set.duplicate(),
        msg.slot_index,
        msg.topic.duplicate(),
    );
    assert_eq!(again.to_bytes(), msg.to_bytes());
    assert!(node1.handle(&again).expect("handle").is_none());
    assert_eq!(node1.seen_msg_hashes.len(), 1);
}

#[test]
fn node_drops_its_own_and_future_messages() {
    let (mut node1, mut node2) = two_nodes();
    let own = node1.nominate(set(&[1])).expect("nominate").expect("msg");
    assert!(node1.handle(&own).expect("handle").is_none());
    assert_eq!(node1.seen_msg_hashes.len(), 0);
    node2.reset_slot_index(5);
    let future = node2.nominate(set(&[1])).expect("nominate").expect("msg");
    assert_eq!(future.slot_index, 5);
    assert!(node1.handle(&future).expect("handle").is_none());
    assert_eq!(node1.seen_msg_hashes.len(), 0);
    assert_eq!(node1.get_slot_metrics().num_messages, 0);
    // A message about a past slot is remembered and dropped.
    node1.reset_slot_index(9);
    assert!(node1.handle(&future).expect("handle").is_none());
    assert_eq!(node1.seen_msg_hashes.len(), 1);
    assert_eq!(node1.get_slot_metrics().num_messages, 0);
    assert_eq!(node1.current_slot_index(), 9);
}

#[test]
fn nominating_nothing_does_nothing() {
    let (mut node1, _) = two_nodes();
    assert!(node1.nominate(ValueSet::new()).expect("nominate").is_none());
    assert_eq!(node1.get_slot_metrics().num_voted_nominated, 0);
    let out = node1.nominate(set(&[3, 1, 3, 2])).expect("nominate").expect("msg");
    match &out.topic {
        Topic::Nominate(n) => assert_eq!(n.X.to_vec(), vec![1, 2, 3]),
        _ => panic!("not a nominate statement"),
    }
    // Nothing new to say.
    assert!(node1.nominate(set(&[1])).expect("nominate").is_none());
}

#[test]
fn node_keeps_ten_externalized_slots() {
    let (mut node1, mut node2) = two_nodes();
    for slot in 1..=12u64 {
        assert_eq!(node1.current_slot_index(), slot);
        assert_eq!(node2.current_slot_index(), slot);
        let value = 100 + slot as u32;
        let (last2, last1) = agree(&mut node1, &mut node2, &[value]);
        assert!(matches!(last2.topic, Topic::Externalize(_)));
        assert!(matches!(last1.topic, Topic::Externalize(_)));
        assert!(node1.externalized_slots.len() <= 10);
        assert!(node2.externalized_slots.len() <= 10);
        assert_eq!(node1.get_externalized_values(slot), Some(vec![value]));
        assert_eq!(node2.get_externalized_values(slot), Some(vec![value]));
    }
    assert_eq!(node1.externalized_slots.len(), 10);
    assert_eq!(node1.get_externalized_values(1), None);
    assert_eq!(node1.get_externalized_values(2), None);
    assert_eq!(node1.get_externalized_values(3), Some(vec![103]));
    assert_eq!(node1.get_externalized_values(12), Some(vec![112]));
    assert_eq!(node1.get_externalized_values(13), None);
    for pair in node1.externalized_slots.windows(2) {
        assert!(pair[0].get_index() < pair[1].get_index());
    }
}

#[test]
fn node_remembers_the_digest_of_what_it_handled() {
    let (mut node1, mut node2) = two_nodes();
    let msg = node2.nominate(set(&[1000, 2000])).expect("nominate").expect("msg");
    node1.handle(&msg).expect("handle");
    let bytes = msg.to_bytes();
    let digest = <sha3::Sha3_256 as sha3::Digest>::digest(&bytes).to_vec();
    assert_eq!(digest.len(), 32);
    assert!(digest != bytes);
    assert!(node1.seen_msg_hashes.contains(&digest));
    assert!(!node1.seen_msg_hashes.contains(&bytes));
    assert_eq!(node1.seen_msg_hashes.len(), 1);
}

#[test]
fn a_slot_never_goes_back() {
    let (mut node1, mut node2) = two_nodes();
    let rank = |p: Phase| match p {
        Phase::Nominate => 0,
        Phase::NominatePrepare => 1,
        Phase::Prepare => 2,
        Phase::Commit => 3,
        Phase::Externalize => 4,
    };
    let mut msg = node2.nominate(set(&[1000, 2000])).expect("nominate").expect("msg");
    let mut last: [(u32, u32, u32, u32); 2] = [(0, 0, 0, 0), (0, 0, 0, 0)];
    for step in 0..6 {
        let node = if step % 2 == 0 { &mut node1 } else { &mut node2 };
        msg = node.handle(&msg).expect("handle").expect("msg");
        if node.current_slot_index() > 1 {
            break;
        }
        let slot = &node.current_slot;
        let now = (rank(slot.phase), slot.B.N, slot.CN, slot.HN);
        let before = last[step % 2];
        assert!(now.0 >= before.0 && now.1 >= before.1 && now.2 >= before.2 && now.3 >= before.3);
        last[step % 2] = now;
    }
    assert!(last[0].0 >= 3);
}

#[test]
fn the_node_stays_on_the_slot_with_the_highest_number() {
    let make = |local: u32, peer: u32| {
        Node::<u32, TrivialValidity, TrivialCombine>::new(
            test_node_id(local),
            QuorumSet::new_with_node_ids(1, vec![test_node_id(peer)]),
            TrivialValidity,
            TrivialCombine,
            u64::MAX,
        )
        .expect("node")
    };
    let mut node1 = make(1, 2);
    let mut node2 = make(2, 1);
    let mut msg = node2.nominate(set(&[9])).expect("nominate").expect("msg");
    for step in 0..7 {
        msg = if step % 2 == 0 {
            node1.handle(&msg).expect("handle").expect("msg")
        } else {
            node2.handle(&msg).expect("handle").expect("msg")
        };
    }
    assert!(matches!(msg.topic, Topic::Externalize(_)));
    assert_eq!(msg.slot_index, u64::MAX);
    for node in [&mut node1, &mut node2] {
        assert_eq!(node.current_slot_index(), u64::MAX);
        assert!(node.get_slot_metrics().phase == Phase::Externalize);
        assert_eq!(node.externalized_slots.len(), 0);
        assert!(node.process_timeouts(1_000_000).expect("timeouts").is_empty());
    }
    assert!(node2.handle(&msg).expect("handle").is_some());
    assert!(node2.handle(&msg).expect("handle").is_none());
}

#[test]
fn emitted_messages_never_go_back_in_phase() {
    let (mut node1, mut node2) = two_nodes();
    let rank = |t: &Topic<u32>| match t {
        Topic::Nominate(_) => 0,
        Topic::NominatePrepare(_, _) => 1,
        Topic::Prepare(_) => 2,
        Topic::Commit(_) => 3,
        Topic::Externalize(_) => 4,
    };
    let mut msg = node2.nominate(set(&[1000, 2000])).expect("nominate").expect("msg");
    let mut last = [0, rank(&msg.topic)];
    for step in 0..7 {
        let from = step % 2;
        msg = if from == 0 {
            node1.handle(&msg).expect("handle").expect("msg")
        } else {
            node2.handle(&msg).expect("handle").expect("msg")
        };
        assert!(rank(&msg.topic) >= last[from]);
        assert_eq!(msg.slot_index, 1);
        assert!(msg.sender_id.same(&test_node_id(from as u32 + 1)));
        last[from] = rank(&msg.topic);
    }
    assert_eq!(last, [4, 4]);
}
