use consensus_scp::ballot::{Ballot, BallotSet, INFINITY};
use consensus_scp::lru::LruCache;
use consensus_scp::msg::{
    CommitPayload, ExternalizePayload, Msg, NominatePayload, PreparePayload, Topic,
};
use consensus_scp::node_id::NodeSet;
use consensus_scp::quorum_set::QuorumSet;
use consensus_scp::statements::intersect_windows;
use consensus_scp::test_utils::test_node_id;
use consensus_scp::value::{Rank, Value};
use consensus_scp::value_set::{compare_value_lists, ValueSet};

fn values(v: &[u32]) -> ValueSet<u32> {
    ValueSet::from_vec(v.to_vec())
}

fn msg(topic: Topic<u32>) -> Msg<u32> {
    Msg::new(test_node_id(1), QuorumSet::empty(), 1, topic)
}

fn ballots(set: &BallotSet<u32>) -> Vec<(u32, Vec<u32>)> {
    let mut all: Vec<(u32, Vec<u32>)> =
        (0..set.len()).map(|i| (set.get(i).N, set.get(i).X.clone())).collect();
    all.sort();
    all
}

#[test]
fn value_sets_are_sorted_sets() {
    let mut a = values(&[5, 1, 3, 1]);
    assert_eq!(a.to_vec(), vec![1, 3, 5]);
    assert_eq!(a.len(), 3);
    assert!(a.contains(&3));
    assert!(!a.contains(&4));
    assert!(a.insert(4));
    assert!(!a.insert(4));
    assert_eq!(a.to_vec(), vec![1, 3, 4, 5]);
    assert_eq!(*a.get(2), 4);
    let b = values(&[4, 9, 1]);
    assert_eq!(a.union(&b).to_vec(), vec![1, 3, 4, 5, 9]);
    assert_eq!(a.intersection(&b).to_vec(), vec![1, 4]);
    assert_eq!(a.difference(&b).to_vec(), vec![3, 5]);
    assert!(values(&[1, 4]).is_subset(&a));
    assert!(!b.is_subset(&a));
    assert!(a.same(&values(&[5, 4, 3, 1])));
    assert!(!a.same(&b));
    assert_eq!(a.first(2).to_vec(), vec![1, 3]);
    assert_eq!(a.first(9).to_vec(), vec![1, 3, 4, 5]);
    assert_eq!(a.retain_marked(&vec![true, false, false, true]).to_vec(), vec![1, 5]);
    assert!(ValueSet::<u32>::new().is_empty());
    assert_eq!(ValueSet::singleton(8u32).to_vec(), vec![8]);
    assert!(values(&[1, 9]).compare(&values(&[2])) == Rank::Below);
    assert!(values(&[1, 9]).compare(&values(&[1])) == Rank::Above);
    assert!(values(&[1, 9]).compare(&values(&[9, 1])) == Rank::Same);
}

#[test]
fn values_are_ordered_by_their_keys() {
    assert_eq!(0x01020304u32.to_key(), vec![1, 2, 3, 4]);
    assert_eq!(0x0102030405060708u64.to_key(), vec![1, 2, 3, 4, 5, 6, 7, 8]);
    assert_eq!("aé".to_string().to_key(), vec![0x61, 0xc3, 0xa9]);
    let strings = ValueSet::from_vec(vec!["b".to_string(), "B".to_string(), "a".to_string()]);
    assert_eq!(strings.to_vec(), vec!["B".to_string(), "a".to_string(), "b".to_string()]);
    let wide = ValueSet::from_vec(vec![1u64 << 40, 3, 1 << 33]);
    assert_eq!(wide.to_vec(), vec![3, 1 << 33, 1 << 40]);
    assert!(compare_value_lists(&vec![1u32, 2], &vec![1u32, 2, 0]) == Rank::Below);
    assert!(compare_value_lists(&vec![2u32], &vec![1u32, 2, 0]) == Rank::Above);
}

#[test]
fn ballots_are_ordered_by_counter_then_values() {
    let a = Ballot::new(1, &[9u32]);
    let b = Ballot::new(2, &[1u32]);
    let c = Ballot::new(2, &[1u32, 0]);
    assert!(a.compare(&b) == Rank::Below);
    assert!(c.compare(&b) == Rank::Above);
    assert!(b.compare(&b.duplicate()) == Rank::Same);
    assert!(b.same(&Ballot::new(2, &[1])));
    assert!(!b.same(&c));
    assert!(a.is_compatible(&Ballot::new(7, &[9])));
    assert!(!a.is_compatible(&b));
    assert!(Ballot::<u32>::new(0, &[]).is_zero());
    assert!(!a.is_zero());
    assert_eq!(INFINITY, u32::MAX);

    let mut set = BallotSet::from_vec(vec![a.duplicate(), c.duplicate(), a.duplicate()]);
    assert_eq!(set.len(), 2);
    assert!(set.insert(b.duplicate()));
    assert!(!set.insert(b.duplicate()));
    assert!(set.contains(&c));
    assert!(set.highest().expect("highest").same(&c));
    assert!(BallotSet::<u32>::new().highest().is_none());
    assert!(set.covers(&Ballot::new(1, &[1])));
    assert!(set.covers(&Ballot::new(2, &[1])));
    assert!(!set.covers(&Ballot::new(3, &[1])));
    assert!(!set.covers(&Ballot::new(1, &[2])));
    assert_eq!(ballots(&set.with_values(&vec![1])), vec![(2, vec![1])]);
    let by = BallotSet::from_vec(vec![Ballot::new(5, &[9u32]), Ballot::new(2, &[1u32])]);
    assert_eq!(ballots(&set.intersection(&by)), vec![(2, vec![1])]);
    assert!(set.intersection(&BallotSet::singleton(Ballot::new(5, &[9u32]))).is_empty());
    let mut more = BallotSet::singleton(Ballot::new(8, &[8u32]));
    more.extend(&set);
    more.extend(&set);
    assert_eq!(more.len(), 4);
    assert!(set.is_subset(&more));
    assert!(!more.same(&set));
}

#[test]
fn node_sets_hold_each_node_once() {
    let mut set = NodeSet::from_vec(vec![test_node_id(1), test_node_id(2), test_node_id(1)]);
    assert_eq!(set.len(), 2);
    assert!(set.contains(&test_node_id(2)));
    assert!(!set.contains(&test_node_id(3)));
    assert!(set.insert(test_node_id(3)));
    assert!(!set.insert(test_node_id(3)));
    assert!(set.get(2).same(&test_node_id(3)));
    assert!(set.duplicate().same(&set));
    assert!(NodeSet::new().is_subset(&set));
    assert!(NodeSet::new().is_empty());
}

#[test]
fn quorum_sets_are_checked() {
    let ids = |numbers: &[u32]| numbers.iter().map(|n| test_node_id(*n)).collect::<Vec<_>>();
    assert!(QuorumSet::new_with_node_ids(2, ids(&[1, 2, 3])).is_valid());
    assert!(QuorumSet::new_with_node_ids(3, ids(&[1, 2, 3])).is_valid());
    assert!(!QuorumSet::new_with_node_ids(4, ids(&[1, 2, 3])).is_valid());
    assert!(!QuorumSet::new_with_node_ids(0, ids(&[1, 2, 3])).is_valid());
    assert!(!QuorumSet::new_with_node_ids(1, ids(&[1, 2, 1])).is_valid());
    assert!(!QuorumSet::empty().is_valid());
    let a = QuorumSet::new_with_node_ids(1, ids(&[1, 2]));
    assert!(a.same(&a.duplicate()));
    assert!(!a.same(&QuorumSet::new_with_node_ids(1, ids(&[2, 1]))));
    assert!(!a.same(&QuorumSet::new_with_node_ids(2, ids(&[1, 2]))));
}

#[test]
fn messages_say_what_their_phase_says() {
    let nominate = msg(Topic::Nominate(NominatePayload { X: values(&[1, 2]), Y: values(&[3]) }));
    assert_eq!(nominate.votes_or_accepts_nominated().expect("set").to_vec(), vec![1, 2, 3]);
    assert_eq!(nominate.accepts_nominated().expect("set").to_vec(), vec![3]);
    assert!(nominate.votes_or_accepts_prepared().is_empty());
    assert!(nominate.accepts_prepared().is_empty());
    assert_eq!(nominate.accepts_commits(&vec![1], 0, 9), None);
    assert_eq!(nominate.ballot_counter(), 0);

    let prepare = msg(Topic::Prepare(PreparePayload {
        B: Ballot::new(5, &[1]),
        P: Some(Ballot::new(4, &[1])),
        PP: Some(Ballot::new(3, &[2])),
        CN: 2,
        HN: 4,
    }));
    assert!(prepare.votes_or_accepts_nominated().is_none());
    assert!(prepare.accepts_nominated().is_none());
    assert_eq!(
        ballots(&prepare.votes_or_accepts_prepared()),
        vec![(2, vec![1]), (3, vec![2]), (4, vec![1]), (5, vec![1])]
    );
    assert_eq!(ballots(&prepare.accepts_prepared()), vec![(3, vec![2]), (4, vec![1])]);
    assert_eq!(prepare.accepts_commits(&vec![1], 1, 9), None);
    assert_eq!(prepare.votes_or_accepts_commits(&vec![1], 1, 9), Some((2, 4)));
    assert_eq!(prepare.votes_or_accepts_commits(&vec![1], 3, 3), Some((3, 3)));
    assert_eq!(prepare.votes_or_accepts_commits(&vec![1], 5, 9), None);
    assert_eq!(prepare.votes_or_accepts_commits(&vec![2], 1, 9), None);
    assert_eq!(prepare.ballot_counter(), 5);

    let commit = msg(Topic::Commit(CommitPayload { B: Ballot::new(7, &[1]), PN: 6, CN: 2, HN: 5 }));
    assert_eq!(
        ballots(&commit.votes_or_accepts_prepared()),
        vec![(2, vec![1]), (5, vec![1]), (6, vec![1]), (7, vec![1])]
    );
    assert_eq!(ballots(&commit.accepts_prepared()), vec![(5, vec![1]), (6, vec![1])]);
    assert_eq!(commit.accepts_commits(&vec![1], 1, 9), Some((2, 5)));
    assert_eq!(commit.accepts_commits(&vec![1], 6, 9), None);
    assert_eq!(commit.votes_or_accepts_commits(&vec![1], 4, 9), Some((4, 5)));

    let done = msg(Topic::Externalize(ExternalizePayload { C: Ballot::new(3, &[1]), HN: 4 }));
    assert_eq!(
        ballots(&done.votes_or_accepts_prepared()),
        vec![(3, vec![1]), (4, vec![1]), (INFINITY, vec![1])]
    );
    assert_eq!(ballots(&done.accepts_prepared()), vec![(INFINITY, vec![1])]);
    assert_eq!(done.accepts_commits(&vec![1], 1, 9), Some((3, 9)));
    assert_eq!(done.accepts_commits(&vec![1], 1, 2), None);
    assert_eq!(done.ballot_counter(), INFINITY);
    assert_eq!(intersect_windows(1, 5, 5, 9), Some((5, 5)));
    assert_eq!(intersect_windows(1, 4, 5, 9), None);
}

#[test]
fn later_statements_replace_earlier_ones() {
    let nominate = |x: &[u32], y: &[u32]| Topic::Nominate(NominatePayload { X: values(x), Y: values(y) });
    let prepare = |n: u32, p: Option<u32>, cn: u32, hn: u32| {
        Topic::Prepare(PreparePayload {
            B: Ballot::new(n, &[1u32]),
            P: p.map(|c| Ballot::new(c, &[1u32])),
            PP: None,
            CN: cn,
            HN: hn,
        })
    };
    let commit = Topic::Commit(CommitPayload { B: Ballot::new(1, &[1u32]), PN: 1, CN: 1, HN: 1 });
    let done = Topic::Externalize(ExternalizePayload { C: Ballot::new(1, &[1u32]), HN: 1 });

    assert!(nominate(&[1], &[2]).supersedes(&nominate(&[1, 2], &[])));
    assert!(!nominate(&[1, 2], &[]).supersedes(&nominate(&[1], &[2])));
    assert!(!nominate(&[1], &[]).supersedes(&nominate(&[1], &[])));
    assert!(nominate(&[1], &[]).is_not_older(&nominate(&[1], &[])));
    assert!(prepare(1, None, 0, 0).supersedes(&nominate(&[1], &[2])));
    assert!(!nominate(&[1, 9], &[2, 9]).supersedes(&prepare(1, None, 0, 0)));
    assert!(prepare(1, Some(1), 0, 0).supersedes(&prepare(1, None, 0, 0)));
    assert!(!prepare(1, None, 0, 0).supersedes(&prepare(1, Some(1), 0, 0)));
    assert!(prepare(2, Some(1), 1, 1).supersedes(&prepare(1, Some(1), 1, 1)));
    assert!(!prepare(2, Some(1), 0, 0).supersedes(&prepare(1, Some(1), 1, 1)));
    assert!(commit.supersedes(&prepare(9, Some(9), 9, 9)));
    assert!(!prepare(9, Some(9), 9, 9).supersedes(&commit));
    assert!(done.supersedes(&commit));
    assert!(!commit.supersedes(&done));
    assert!(!done.supersedes(&done));
}

#[test]
fn the_record_forgets_what_was_used_least_recently() {
    let mut seen = LruCache::new(3);
    assert_eq!(seen.len(), 0);
    seen.put(vec![1]);
    seen.put(vec![2]);
    seen.put(vec![3]);
    assert!(seen.get(&vec![1]));
    assert!(!seen.get(&vec![9]));
    seen.put(vec![4]);
    assert_eq!(seen.len(), 3);
    assert!(!seen.contains(&vec![2]));
    assert!(seen.contains(&vec![1]));
    assert!(seen.contains(&vec![3]));
    assert!(seen.contains(&vec![4]));
    seen.put(vec![3]);
    seen.put(vec![5]);
    assert_eq!(seen.len(), 3);
    assert!(!seen.contains(&vec![1]));
    assert!(seen.contains(&vec![3]));
}

#[test]
fn a_message_has_canonical_bytes() {
    let m = Msg::new(
        test_node_id(1),
        QuorumSet::new_with_node_ids(1, vec![test_node_id(2)]),
        3,
        Topic::Nominate(NominatePayload { X: values(&[258, 2]), Y: ValueSet::new() }),
    );
    let mut want: Vec<u8> = Vec::new();
    let len = |n: u64| n.to_be_bytes().to_vec();
    let node = |n: u32| {
        let name = format!("node{}.test.com:8443", n);
        let mut out = len(name.len() as u64);
        out.extend_from_slice(name.as_bytes());
        out.extend(len(32));
        out.extend_from_slice(&n.to_be_bytes());
        out.extend_from_slice(&[0u8; 28]);
        out
    };
    want.extend(node(1));
    want.extend_from_slice(&1u32.to_be_bytes());
    want.extend(len(1));
    want.push(0);
    want.extend(node(2));
    want.extend(len(3));
    want.push(0);
    want.extend(len(2));
    want.extend(len(4));
    want.extend_from_slice(&[0, 0, 0, 2]);
    want.extend(len(4));
    want.extend_from_slice(&[0, 0, 1, 2]);
    want.extend(len(0));
    assert_eq!(m.to_bytes(), want);
    let other = Msg::new(
        test_node_id(1),
        QuorumSet::new_with_node_ids(1, vec![test_node_id(2)]),
        3,
        Topic::Nominate(NominatePayload { X: values(&[2]), Y: values(&[258]) }),
    );
    assert!(m.to_bytes() != other.to_bytes());
}
