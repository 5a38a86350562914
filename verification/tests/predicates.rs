use consensus_scp::ballot::{Ballot, BallotSet};
use consensus_scp::msg::{CommitPayload, Msg, NominatePayload, PreparePayload, Topic};
use consensus_scp::msg_map::MsgMap;
use consensus_scp::node_id::NodeSet;
use consensus_scp::ballot_ranges::{BallotRange, BallotRanges};
use consensus_scp::predicates::{
    BallotRangePredicate, BallotSetPredicate, Claim, CounterAtLeast, FuncPredicate,
    MinMaxPredicate, Predicate, ValueSetPredicate,
};
use consensus_scp::quorum_set::QuorumSet;
use consensus_scp::quorum_set_text::test_quorum_set_from_string;
use consensus_scp::test_utils::test_node_id;
use consensus_scp::value_set::ValueSet;

fn quorum_set_from_str(text: &str) -> QuorumSet {
    test_quorum_set_from_string(text).expect("failed to parse")
}

fn nodes(numbers: &[u32]) -> NodeSet {
    NodeSet::from_vec(numbers.iter().map(|n| test_node_id(*n)).collect())
}

fn strings(values: &[&str]) -> ValueSet<String> {
    ValueSet::from_vec(values.iter().map(|v| v.to_string()).collect())
}

fn prepare(ballot: &Ballot<u32>) -> Topic<u32> {
    Topic::Prepare(PreparePayload { B: ballot.duplicate(), P: None, PP: None, CN: 0, HN: 0 })
}

// BallotSetPredicate can be used to pick a quorum that intersects with a given set of ballots.
#[test]
fn test_ballot_set_predicate_quorum() {
    let local_node_id = test_node_id(1);
    let local_node_quorum_set = quorum_set_from_str("([2],2,3,4,5)");
    let node_2_quorum_set = quorum_set_from_str("([1],1,3,4,5)");
    let node_3_quorum_set = quorum_set_from_str("([1],1,2,4,5)");
    let node_4_quorum_set = quorum_set_from_str("([1],1,2,3,5)");
    let node_5_quorum_set = quorum_set_from_str("([1],1,2,3,4)");

    let ballot_1 = Ballot::new(1, &[1111]);
    let ballot_2 = Ballot::new(1, &[2222]);
    let ballot_3 = Ballot::new(1, &[3333]);

    let mut msgs = MsgMap::<u32>::new();

    // Node 2 and 3 form a quorum, voting on ballot_1
    msgs.insert(Msg::new(test_node_id(2), node_2_quorum_set, 1, prepare(&ballot_1)));
    msgs.insert(Msg::new(test_node_id(3), node_3_quorum_set, 1, prepare(&ballot_1)));

    // Node 4 and 5 also form a quorum, voting on ballot_2
    msgs.insert(Msg::new(test_node_id(4), node_4_quorum_set, 1, prepare(&ballot_2)));
    msgs.insert(Msg::new(test_node_id(5), node_5_quorum_set, 1, prepare(&ballot_2)));

    // Look for quorum intersecting with ballot_1 and some ballot for which there is no quorum
    let (node_ids, pred) = local_node_quorum_set.findQuorum(
        &local_node_id,
        &msgs,
        BallotSetPredicate {
            ballots: BallotSet::from_vec(vec![ballot_1.duplicate(), ballot_3]),
            claim: Claim::VotesOrAccepts,
        },
    );
    assert!(node_ids.same(&nodes(&[1, 2, 3])));
    assert!(pred.result().same(&BallotSet::from_vec(vec![ballot_1])));
}

// BallotSetPredicate can be used to pick a blocking set that intersects with a given set of ballots.
#[test]
fn test_ballot_set_predicate_blocking_set() {
    // Node 2 and 3 form a blocking set. Node 5 and 6 also form a blocking set.
    let local_node_quorum_set = quorum_set_from_str("([2],([2],2,3,4),([2],5,6,7))");
    let node_2_quorum_set = quorum_set_from_str("([1],3,4)");
    let node_3_quorum_set = quorum_set_from_str("([1],2,4)");
    let node_5_quorum_set = quorum_set_from_str("([1],6,7)");
    let node_6_quorum_set = quorum_set_from_str("([1],5,7)");

    let ballot_1 = Ballot::new(1, &[1111]);
    let ballot_2 = Ballot::new(1, &[2222]);
    let ballot_3 = Ballot::new(1, &[3333]);

    let mut msgs = MsgMap::<u32>::new();
    msgs.insert(Msg::new(test_node_id(2), node_2_quorum_set, 1, prepare(&ballot_1)));
    msgs.insert(Msg::new(test_node_id(3), node_3_quorum_set, 1, prepare(&ballot_1)));
    msgs.insert(Msg::new(test_node_id(5), node_5_quorum_set, 1, prepare(&ballot_2)));
    msgs.insert(Msg::new(test_node_id(6), node_6_quorum_set, 1, prepare(&ballot_2)));

    let (node_ids, pred) = local_node_quorum_set.findBlockingSet(
        &msgs,
        BallotSetPredicate {
            ballots: BallotSet::from_vec(vec![ballot_1.duplicate(), ballot_3]),
            claim: Claim::VotesOrAccepts,
        },
    );
    assert!(node_ids.same(&nodes(&[2, 3])));
    assert!(pred.result().same(&BallotSet::from_vec(vec![ballot_1])));
}

fn nominate(values: &ValueSet<String>) -> Topic<String> {
    Topic::Nominate(NominatePayload { X: values.duplicate(), Y: ValueSet::new() })
}

// ValueSetPredicate can be used to pick a set of values that has reached quorum.
#[test]
fn test_value_set_predicate_quorum() {
    let local_node_id = test_node_id(1);
    let local_node_quorum_set = quorum_set_from_str("([2],2,3,4,5)");
    let node_2_quorum_set = quorum_set_from_str("([1],1,3,4,5)");
    let node_3_quorum_set = quorum_set_from_str("([1],1,2,4,5)");
    let node_4_quorum_set = quorum_set_from_str("([1],1,2,3,5)");
    let node_5_quorum_set = quorum_set_from_str("([1],1,2,3,4)");

    let values_1 = strings(&["a", "A"]);
    let values_2 = strings(&["b", "B"]);

    let mut msgs = MsgMap::<String>::new();
    msgs.insert(Msg::new(test_node_id(2), node_2_quorum_set, 1, nominate(&values_1)));
    msgs.insert(Msg::new(test_node_id(3), node_3_quorum_set, 1, nominate(&values_1)));
    msgs.insert(Msg::new(test_node_id(4), node_4_quorum_set, 1, nominate(&values_2)));
    msgs.insert(Msg::new(test_node_id(5), node_5_quorum_set, 1, nominate(&values_2)));

    let (node_ids, pred) = local_node_quorum_set.findQuorum(
        &local_node_id,
        &msgs,
        ValueSetPredicate { values: strings(&["a", "A", "c", "C"]), claim: Claim::VotesOrAccepts },
    );
    assert!(node_ids.same(&nodes(&[1, 2, 3])));
    assert!(pred.result().same(&values_1));
}

// ValueSetPredicate can be used to pick a set values that has reached blocking threshold.
#[test]
fn test_value_set_predicate_blocking_set() {
    let local_node_quorum_set = quorum_set_from_str("([2],([2],2,3,4),([2],5,6,7))");
    let node_2_quorum_set = quorum_set_from_str("([1],3,4)");
    let node_3_quorum_set = quorum_set_from_str("([1],2,4)");
    let node_5_quorum_set = quorum_set_from_str("([1],6,7)");
    let node_6_quorum_set = quorum_set_from_str("([1],5,7)");

    let values_1 = strings(&["a", "A"]);
    let values_2 = strings(&["b", "B"]);

    let mut msgs = MsgMap::<String>::new();
    msgs.insert(Msg::new(test_node_id(2), node_2_quorum_set, 1, nominate(&values_1)));
    msgs.insert(Msg::new(test_node_id(3), node_3_quorum_set, 1, nominate(&values_1)));
    msgs.insert(Msg::new(test_node_id(5), node_5_quorum_set, 1, nominate(&values_2)));
    msgs.insert(Msg::new(test_node_id(6), node_6_quorum_set, 1, nominate(&values_2)));

    let (node_ids, pred) = local_node_quorum_set.findBlockingSet(
        &msgs,
        ValueSetPredicate { values: strings(&["a", "A", "c", "C"]), claim: Claim::VotesOrAccepts },
    );
    assert!(node_ids.same(&nodes(&[2, 3])));
    assert!(pred.result().same(&values_1));
}

fn commit(ballot: &Ballot<String>, cn: u32, hn: u32) -> Topic<String> {
    Topic::Commit(CommitPayload { B: ballot.duplicate(), PN: 0, CN: cn, HN: hn })
}

// MinMaxPredicate can be used to narrow down min and max CN/HN values in a quorum.
#[test]
fn test_quorum_min_max_predicate() {
    let local_node_id = test_node_id(1);
    let local_node_quorum_set = quorum_set_from_str("([2],2,3,4,5)");
    let node_2_quorum_set = quorum_set_from_str("([1],1,3,4,5)");
    let node_3_quorum_set = quorum_set_from_str("([1],1,2,4,5)");
    let node_4_quorum_set = quorum_set_from_str("([1],1,2,3,5)");
    let node_5_quorum_set = quorum_set_from_str("([1],1,2,3,4)");

    let ballot_1 = Ballot::new(1, &["a".to_string(), "A".to_string()]);
    let ballot_2 = Ballot::new(1, &["b".to_string(), "B".to_string()]);

    let mut msgs = MsgMap::<String>::new();
    msgs.insert(Msg::new(test_node_id(2), node_2_quorum_set, 1, commit(&ballot_1, 10, 20)));
    msgs.insert(Msg::new(test_node_id(3), node_3_quorum_set, 1, commit(&ballot_1, 15, 25)));
    msgs.insert(Msg::new(test_node_id(4), node_4_quorum_set, 1, commit(&ballot_2, 30, 40)));
    msgs.insert(Msg::new(test_node_id(5), node_5_quorum_set, 1, commit(&ballot_2, 30, 40)));

    let (node_ids, pred) = local_node_quorum_set.findQuorum(
        &local_node_id,
        &msgs,
        MinMaxPredicate {
            min: 1,
            max: <u32>::max_value(),
            values: ballot_1.X,
            claim: Claim::Accepts,
        },
    );
    assert!(node_ids.same(&nodes(&[1, 2, 3])));

    // Our inputs are (1, max u32), (10, 20), (15, 25). (15, 20) is the intersection of
    // those.
    assert_eq!(pred.result(), (15, 20));
}

#[test]
fn no_quorum_hands_back_the_node_alone() {
    let local = test_node_id(1);
    let quorum_set = quorum_set_from_str("([2],2,3)");
    let ballot = Ballot::new(1, &[7u32]);
    let mut msgs = MsgMap::<u32>::new();
    msgs.insert(Msg::new(test_node_id(2), quorum_set_from_str("([1],1)"), 1, prepare(&ballot)));
    let wanted = BallotSet::from_vec(vec![ballot.duplicate()]);
    let found = quorum_set.search_quorum(
        &local,
        &msgs,
        BallotSetPredicate { ballots: wanted.duplicate(), claim: Claim::VotesOrAccepts },
    );
    assert!(found.is_none());
    let (node_ids, pred) = quorum_set.findQuorum(
        &local,
        &msgs,
        BallotSetPredicate { ballots: wanted.duplicate(), claim: Claim::VotesOrAccepts },
    );
    assert!(node_ids.same(&nodes(&[1])));
    assert!(pred.result().same(&wanted));
    let (blocking, pred) = quorum_set.findBlockingSet(
        &msgs,
        BallotSetPredicate { ballots: wanted.duplicate(), claim: Claim::Accepts },
    );
    assert!(blocking.is_empty());
    assert!(pred.result().same(&wanted));
}

#[test]
fn a_quorum_needs_the_quorum_sets_of_its_members() {
    // Node 2 passes the test but needs node 3, which has said nothing.
    let local = test_node_id(1);
    let quorum_set = quorum_set_from_str("([1],2)");
    let ballot = Ballot::new(1, &[7u32]);
    let mut msgs = MsgMap::<u32>::new();
    msgs.insert(Msg::new(test_node_id(2), quorum_set_from_str("([1],3)"), 1, prepare(&ballot)));
    let test = CounterAtLeast { counter: 1 };
    assert!(quorum_set
        .search_quorum(&local, &msgs, FuncPredicate { test_fn: &test })
        .is_none());
    msgs.insert(Msg::new(test_node_id(3), quorum_set_from_str("([1],1)"), 1, prepare(&ballot)));
    let (found, _) = quorum_set
        .search_quorum(&local, &msgs, FuncPredicate { test_fn: &test })
        .expect("quorum");
    assert!(found.same(&nodes(&[1, 2, 3])));
    let high = CounterAtLeast { counter: 2 };
    assert!(quorum_set
        .search_quorum(&local, &msgs, FuncPredicate { test_fn: &high })
        .is_none());
}

#[test]
fn searching_twice_finds_the_same() {
    let local = test_node_id(1);
    let quorum_set = quorum_set_from_str("([2],2,3,([1],4,5))");
    let ballot = Ballot::new(3, &[7u32]);
    let mut msgs = MsgMap::<u32>::new();
    for n in 2..6 {
        msgs.insert(Msg::new(test_node_id(n), quorum_set_from_str("([1],1)"), 1, prepare(&ballot)));
    }
    let test = CounterAtLeast { counter: 3 };
    let (first, _) = quorum_set.findQuorum(&local, &msgs, FuncPredicate { test_fn: &test });
    let (second, _) = quorum_set.findQuorum(&local, &msgs, FuncPredicate { test_fn: &test });
    assert!(first.same(&second));
    assert!(first.same(&nodes(&[1, 2, 3])));
    let (first, _) = quorum_set.findBlockingSet(&msgs, FuncPredicate { test_fn: &test });
    let (second, _) = quorum_set.findBlockingSet(&msgs, FuncPredicate { test_fn: &test });
    assert!(first.same(&second));
    assert!(first.same(&nodes(&[2, 3])));
}

#[test]
fn filter_to_max_values_prefers_more_nodes_then_higher_values() {
    assert!(ValueSetPredicate::<u32>::filter_to_max_values(vec![]).is_none());
    let picked = ValueSetPredicate::<u32>::filter_to_max_values(vec![
        (nodes(&[1, 2]), ValueSet::from_vec(vec![9, 10])),
        (nodes(&[1, 2, 3]), ValueSet::from_vec(vec![1])),
        (nodes(&[1, 2, 4]), ValueSet::from_vec(vec![2])),
        (nodes(&[3]), ValueSet::from_vec(vec![100])),
    ])
    .expect("values");
    assert!(picked.same(&ValueSet::from_vec(vec![2])));
}

#[test]
fn get_highest_ballot_goes_by_upper_bound_then_lower() {
    assert_eq!(MinMaxPredicate::<u32>::get_highest_ballot(vec![]), None);
    let picked = MinMaxPredicate::<u32>::get_highest_ballot(vec![
        (nodes(&[1]), (5, 7)),
        (nodes(&[2]), (1, 9)),
        (nodes(&[3]), (3, 9)),
        (nodes(&[4]), (8, 8)),
    ]);
    assert_eq!(picked, Some((3, 9)));
}

#[test]
fn ballot_range_predicate_narrows_each_range() {
    let values_a = vec![1u32];
    let values_b = vec![2u32];
    let msg = Msg::new(
        test_node_id(2),
        quorum_set_from_str("([1],1)"),
        1,
        Topic::Prepare(PreparePayload {
            B: Ballot::new(9, &values_a),
            P: Some(Ballot::new(5, &values_a)),
            PP: None,
            CN: 0,
            HN: 0,
        }),
    );
    let pred = BallotRangePredicate {
        ballot_ranges: BallotRanges::from_vec(vec![
            BallotRange { values: values_a.clone(), min: 2, max: 8 },
            BallotRange { values: values_b.clone(), min: 1, max: 8 },
        ]),
        claim: Claim::Accepts,
    };
    let next = pred.test(&msg).expect("narrowed");
    let ranges = next.result();
    assert_eq!(ranges.len(), 1);
    assert_eq!(ranges.get(0).values, values_a);
    assert_eq!((ranges.get(0).min, ranges.get(0).max), (2, 5));
    assert_eq!(ranges.range_for(&values_a), Some((2, 5)));
    assert_eq!(ranges.range_for(&values_b), None);
    let voted = BallotRangePredicate {
        ballot_ranges: BallotRanges::from_vec(vec![BallotRange {
            values: values_a.clone(),
            min: 6,
            max: 20,
        }]),
        claim: Claim::VotesOrAccepts,
    };
    let ranges = voted.test(&msg).expect("narrowed").result();
    assert_eq!((ranges.get(0).min, ranges.get(0).max), (6, 9));
    let none = BallotRangePredicate {
        ballot_ranges: BallotRanges::from_vec(vec![BallotRange {
            values: values_a.clone(),
            min: 6,
            max: 20,
        }]),
        claim: Claim::Accepts,
    };
    assert!(none.test(&msg).is_none());
}

#[test]
fn ballot_set_predicate_keeps_the_ballots_stated_exactly() {
    let higher = Msg::new(
        test_node_id(2),
        quorum_set_from_str("([1],1)"),
        1,
        prepare(&Ballot::new(2, &[7u32])),
    );
    let asked = |ballots: Vec<Ballot<u32>>, claim: Claim| BallotSetPredicate {
        ballots: BallotSet::from_vec(ballots),
        claim,
    };
    // The same values on another counter are another ballot.
    assert!(asked(vec![Ballot::new(1, &[7])], Claim::VotesOrAccepts).test(&higher).is_none());
    assert!(asked(vec![Ballot::new(3, &[7])], Claim::VotesOrAccepts).test(&higher).is_none());
    let kept = asked(
        vec![Ballot::new(1, &[7]), Ballot::new(2, &[7]), Ballot::new(2, &[8])],
        Claim::VotesOrAccepts,
    )
    .test(&higher)
    .expect("narrowed");
    assert!(kept.result().same(&BallotSet::from_vec(vec![Ballot::new(2, &[7u32])])));
    // The message accepts nothing as prepared.
    assert!(asked(vec![Ballot::new(2, &[7])], Claim::Accepts).test(&higher).is_none());
    assert!(asked(vec![], Claim::VotesOrAccepts).test(&higher).is_none());
}

#[test]
fn ballot_ranges_hold_one_range_for_each_value_list() {
    let mut ranges = BallotRanges::from_vec(vec![
        BallotRange { values: vec![1u32], min: 1, max: 2 },
        BallotRange { values: vec![2u32], min: 3, max: 4 },
        BallotRange { values: vec![1u32], min: 5, max: 6 },
    ]);
    assert_eq!(ranges.len(), 2);
    assert_eq!(ranges.get(0).values, vec![1]);
    assert_eq!(ranges.range_for(&vec![1]), Some((5, 6)));
    assert_eq!(ranges.range_for(&vec![2]), Some((3, 4)));
    ranges.insert(BallotRange { values: vec![2u32], min: 7, max: 8 });
    ranges.insert(BallotRange { values: vec![3u32], min: 9, max: 9 });
    assert_eq!(ranges.len(), 3);
    assert_eq!(ranges.range_for(&vec![2]), Some((7, 8)));
    assert_eq!(ranges.get(2).values, vec![3]);
    assert_eq!(ranges.duplicate().range_for(&vec![3]), Some((9, 9)));
    assert_eq!(BallotRanges::<u32>::new().len(), 0);
}
