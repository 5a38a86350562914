use consensus_scp::ballot::{Ballot, INFINITY};
use consensus_scp::callbacks::{CombineFn, ValidityFn};
use consensus_scp::error::ScpError;
use consensus_scp::msg::{
    CommitPayload, ExternalizePayload, Msg, NominatePayload, PreparePayload, Topic,
};
use consensus_scp::node::{Node, ScpNode};
use consensus_scp::quorum_set::QuorumSet;
use consensus_scp::slot::{deadline, Slot};
use consensus_scp::slot_spec::Phase;
use consensus_scp::test_utils::{
    get_bounded_combine_fn, get_slot, test_node_id, trivial_combine_fn, trivial_validity_fn,
    TransactionValidationError, TrivialCombine, TrivialValidity,
};
use consensus_scp::value_set::ValueSet;

fn values(v: &[u32]) -> ValueSet<u32> {
    ValueSet::from_vec(v.to_vec())
}

fn slot_of(node: u32, peer: u32) -> Slot<u32> {
    get_slot(1, &test_node_id(node), &QuorumSet::new_with_node_ids(1, vec![test_node_id(peer)]))
}

fn from_peer(peer: u32, local: u32, topic: Topic<u32>) -> Msg<u32> {
    Msg::new(
        test_node_id(peer),
        QuorumSet::new_with_node_ids(1, vec![test_node_id(local)]),
        1,
        topic,
    )
}

/// Rejects the values above a limit.
struct Below {
    limit: u32,
}

impl ValidityFn<u32> for Below {
    type Error = String;

    fn validate(&self, value: &u32) -> Result<(), String> {
        if *value < self.limit {
            Ok(())
        } else {
            Err(format!("{} is too large", value))
        }
    }
}

/// Adds one value to whatever it is given.
struct Plus {
    extra: u32,
}

impl CombineFn<u32> for Plus {
    fn combine(&self, values: &ValueSet<u32>) -> ValueSet<u32> {
        let mut all = values.duplicate();
        all.insert(self.extra);
        all
    }
}

#[test]
fn deadline_is_base_times_counter_plus_one() {
    assert_eq!(deadline(5000, 1000, 0), 6000);
    assert_eq!(deadline(5000, 1000, 3), 9000);
    assert_eq!(deadline(0, 250, 7), 2000);
    assert_eq!(deadline(10, 0, 7), 10);
    assert_eq!(deadline(u64::MAX, 1, 0), u64::MAX);
    assert_eq!(deadline(1, u64::MAX, INFINITY), u64::MAX);
    assert_eq!(deadline(0, 1, INFINITY), 4294967296);
}

#[test]
fn fresh_slot_says_nothing() {
    let mut slot = slot_of(1, 2);
    assert_eq!(slot.get_index(), 1);
    assert!(slot.get_last_message_sent().is_none());
    assert!(slot.out_msg().is_none());
    assert!(slot.process_timeouts(1000, &TrivialValidity, &TrivialCombine).expect("tick").is_empty());
    assert!(slot.nominate_deadline.is_none());
    let metrics = slot.get_metrics();
    assert!(metrics.phase == Phase::Nominate);
    assert_eq!(metrics.bN, 0);
    assert_eq!(metrics.num_messages, 0);
}

#[test]
fn nominate_timer_resends() {
    let mut slot = slot_of(1, 2);
    let first = slot
        .propose_values(&values(&[4, 2]), &TrivialValidity, &TrivialCombine)
        .expect("propose")
        .expect("msg");
    assert!(slot.process_timeouts(5000, &TrivialValidity, &TrivialCombine).expect("tick").is_empty());
    assert_eq!(slot.nominate_deadline, Some(6000));
    assert!(slot.process_timeouts(5999, &TrivialValidity, &TrivialCombine).expect("tick").is_empty());
    let sent = slot.process_timeouts(6000, &TrivialValidity, &TrivialCombine).expect("tick");
    assert_eq!(sent.len(), 1);
    assert!(sent[0].same(&first));
    assert_eq!(slot.nominate_round, 1);
    assert_eq!(slot.nominate_deadline, Some(8000));
    assert_eq!(slot.get_metrics().cur_nomination_round, 1);
}

#[test]
fn ballot_timer_raises_the_counter() {
    let mut slot = slot_of(2, 1);
    slot.propose_values(&values(&[7]), &TrivialValidity, &TrivialCombine).expect("propose");
    let accepted = from_peer(
        1,
        2,
        Topic::Nominate(NominatePayload { X: ValueSet::new(), Y: values(&[7]) }),
    );
    let out = slot.handle(&accepted, &TrivialValidity, &TrivialCombine).expect("handle").expect("msg");
    assert!(matches!(out.topic, Topic::NominatePrepare(_, _)));
    assert!(slot.phase == Phase::NominatePrepare);
    assert!(slot.process_timeouts(100, &TrivialValidity, &TrivialCombine).expect("tick").is_empty());
    assert_eq!(slot.ballot_deadline, Some(2100));
    assert_eq!(slot.ballot_timer_counter, 1);
    assert!(slot.process_timeouts(2099, &TrivialValidity, &TrivialCombine).expect("tick").is_empty());
    let sent = slot.process_timeouts(2100, &TrivialValidity, &TrivialCombine).expect("tick");
    assert_eq!(sent.len(), 1);
    match &sent[0].topic {
        Topic::NominatePrepare(_, p) => {
            assert!(p.B.same(&Ballot::new(2, &[7])));
            assert_eq!((p.CN, p.HN), (0, 0));
        }
        _ => panic!("not in the overlap"),
    }
    assert_eq!(slot.ballot_deadline, Some(5100));
    assert_eq!(slot.ballot_timer_counter, 2);
}

#[test]
fn slot_catches_up_with_a_blocking_set() {
    let mut slot = slot_of(2, 1);
    slot.propose_values(&values(&[7]), &TrivialValidity, &TrivialCombine).expect("propose");
    let ahead = from_peer(
        1,
        2,
        Topic::NominatePrepare(
            NominatePayload { X: ValueSet::new(), Y: values(&[7]) },
            PreparePayload { B: Ballot::new(5, &[7]), P: None, PP: None, CN: 0, HN: 0 },
        ),
    );
    let out = slot.handle(&ahead, &TrivialValidity, &TrivialCombine).expect("handle").expect("msg");
    match &out.topic {
        Topic::NominatePrepare(_, p) => {
            assert_eq!(p.B.N, 5);
            assert!(p.P.as_ref().expect("prepared").same(&Ballot::new(5, &[7])));
        }
        _ => panic!("not in the overlap"),
    }
}

#[test]
fn slot_takes_over_the_values_of_a_prepared_ballot() {
    let mut slot = slot_of(2, 1);
    slot.propose_values(&values(&[7]), &TrivialValidity, &TrivialCombine).expect("propose");
    let other = from_peer(
        1,
        2,
        Topic::Prepare(PreparePayload {
            B: Ballot::new(3, &[9]),
            P: Some(Ballot::new(3, &[9])),
            PP: None,
            CN: 0,
            HN: 0,
        }),
    );
    let out = slot.handle(&other, &TrivialValidity, &TrivialCombine).expect("handle").expect("msg");
    match &out.topic {
        Topic::Prepare(p) => {
            assert!(p.B.same(&Ballot::new(3, &[9])));
            assert!(p.P.as_ref().expect("prepared").same(&Ballot::new(3, &[9])));
            assert_eq!((p.CN, p.HN), (3, 3));
        }
        _ => panic!("not preparing"),
    }
    assert!(slot.phase == Phase::Prepare);
}

#[test]
fn slot_follows_a_blocking_set_that_committed() {
    let mut slot = slot_of(2, 1);
    let committed = from_peer(
        1,
        2,
        Topic::Commit(CommitPayload { B: Ballot::new(4, &[9]), PN: 4, CN: 2, HN: 4 }),
    );
    let out = slot
        .handle(&committed, &TrivialValidity, &TrivialCombine)
        .expect("handle")
        .expect("msg");
    match &out.topic {
        Topic::Externalize(e) => {
            assert!(e.C.same(&Ballot::new(4, &[9])));
            assert_eq!(e.HN, 4);
        }
        _ => panic!("did not externalize"),
    }
    assert!(slot.phase == Phase::Externalize);
    // The peer externalizes too: every higher ballot is confirmed prepared.
    let done = from_peer(
        1,
        2,
        Topic::Externalize(ExternalizePayload { C: Ballot::new(2, &[9]), HN: 4 }),
    );
    let out = slot.handle(&done, &TrivialValidity, &TrivialCombine).expect("handle").expect("msg");
    match &out.topic {
        Topic::Externalize(e) => assert_eq!(e.HN, INFINITY),
        _ => panic!("left the last phase"),
    }
    // Nothing more to say, and no way back.
    let late = from_peer(
        1,
        2,
        Topic::Commit(CommitPayload { B: Ballot::new(9, &[9]), PN: 9, CN: 9, HN: 9 }),
    );
    assert!(slot.handle(&late, &TrivialValidity, &TrivialCombine).expect("handle").is_none());
    assert!(slot.phase == Phase::Externalize);
    assert_eq!(slot.M.at(0).ballot_counter(), INFINITY);
}

#[test]
fn slot_drops_what_is_not_newer() {
    let mut slot = slot_of(1, 2);
    let newer = from_peer(
        2,
        1,
        Topic::Nominate(NominatePayload { X: values(&[1, 2]), Y: values(&[1]) }),
    );
    let older = from_peer(
        2,
        1,
        Topic::Nominate(NominatePayload { X: values(&[1, 2]), Y: ValueSet::new() }),
    );
    assert!(slot.handle(&newer, &TrivialValidity, &TrivialCombine).expect("handle").is_some());
    let said = slot.get_last_message_sent().expect("last");
    assert!(slot.handle(&older, &TrivialValidity, &TrivialCombine).expect("handle").is_none());
    assert!(slot.handle(&newer, &TrivialValidity, &TrivialCombine).expect("handle").is_none());
    assert!(slot.M.at(0).same(&newer));
    assert!(slot.get_last_message_sent().expect("last").same(&said));
    // Neither its own messages nor those about another slot.
    let own = Msg::new(test_node_id(1), QuorumSet::empty(), 1, newer.topic.duplicate());
    assert!(slot.handle(&own, &TrivialValidity, &TrivialCombine).expect("handle").is_none());
    let elsewhere = Msg::new(test_node_id(3), QuorumSet::empty(), 2, newer.topic.duplicate());
    assert!(slot.handle(&elsewhere, &TrivialValidity, &TrivialCombine).expect("handle").is_none());
    assert_eq!(slot.M.len(), 1);
}

#[test]
fn invalid_values_are_not_nominated() {
    let validity = Below { limit: 10 };
    let mut slot = slot_of(1, 2);
    let out = slot
        .propose_values(&values(&[3, 30, 5]), &validity, &TrivialCombine)
        .expect("propose")
        .expect("msg");
    match &out.topic {
        Topic::Nominate(n) => assert_eq!(n.X.to_vec(), vec![3, 5]),
        _ => panic!("not nominating"),
    }
    let peer = from_peer(
        2,
        1,
        Topic::Nominate(NominatePayload { X: values(&[40, 4]), Y: values(&[50]) }),
    );
    let out = slot.handle(&peer, &validity, &TrivialCombine).expect("handle").expect("msg");
    match &out.topic {
        Topic::Nominate(n) => {
            assert_eq!(n.X.to_vec(), vec![3, 5]);
            assert_eq!(n.Y.to_vec(), vec![4]);
        }
        _ => panic!("not nominating"),
    }
}

#[test]
fn externalizing_an_invalid_value_is_an_error() {
    let validity = Below { limit: 10 };
    let combine = Plus { extra: 99 };
    let mut slot = slot_of(2, 1);
    let committed = from_peer(
        1,
        2,
        Topic::Commit(CommitPayload { B: Ballot::new(1, &[5, 99]), PN: 1, CN: 1, HN: 1 }),
    );
    let out = slot.handle(&committed, &validity, &combine);
    assert!(matches!(out, Err(ScpError::InvalidExternalizedValue)));
    assert!(slot.phase == Phase::Externalize);

    let mut node = Node::new(
        test_node_id(2),
        QuorumSet::new_with_node_ids(1, vec![test_node_id(1)]),
        Below { limit: 10 },
        Plus { extra: 99 },
        1,
    )
    .expect("node");
    let out = node.handle(&committed);
    assert!(matches!(out, Err(ScpError::InvalidExternalizedValue)));
    assert_eq!(node.current_slot_index(), 1);
    assert_eq!(node.externalized_slots.len(), 0);
    assert_eq!(ScpError::InvalidExternalizedValue.to_string(), "Slot Externalized invalid values.");
    assert_eq!(ScpError::MalformedQuorumSet.to_string(), "Malformed quorum set.");
}

#[test]
fn combination_makes_the_ballot() {
    let mut slot = slot_of(2, 1);
    let combine = get_bounded_combine_fn(2);
    slot.propose_values(&values(&[9, 3, 6]), &TrivialValidity, &combine).expect("propose");
    let accepted = from_peer(
        1,
        2,
        Topic::Nominate(NominatePayload { X: ValueSet::new(), Y: values(&[3, 6, 9]) }),
    );
    let out = slot.handle(&accepted, &TrivialValidity, &combine).expect("handle").expect("msg");
    match &out.topic {
        Topic::NominatePrepare(n, p) => {
            assert_eq!(n.Y.to_vec(), vec![3, 6, 9]);
            assert!(p.B.same(&Ballot::new(1, &[3, 6])));
        }
        _ => panic!("not in the overlap"),
    }
    assert_eq!(slot.get_metrics().num_confirmed_nominated, 3);
}

#[test]
fn trivial_callbacks_do_nothing() {
    assert!(trivial_validity_fn(&17u32).is_ok());
    assert!(trivial_validity_fn(&"x".to_string()).is_ok());
    assert_eq!(trivial_combine_fn(values(&[2, 1])).to_vec(), vec![1, 2]);
    assert_eq!(TransactionValidationError.to_string(), "TransactionValidationError");
    let two = get_bounded_combine_fn(2);
    assert_eq!(CombineFn::<u32>::combine(&two, &values(&[5, 4, 3])).to_vec(), vec![3, 4]);
    assert_eq!(CombineFn::<u32>::combine(&two, &values(&[5])).to_vec(), vec![5]);
    let none = get_bounded_combine_fn(0);
    assert!(CombineFn::<u32>::combine(&none, &values(&[5])).is_empty());
}
