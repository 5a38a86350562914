use consensus_scp::ballot::INFINITY;
use consensus_scp::msg::{Msg, Topic};
use consensus_scp::node::{Node, ScpNode};
use consensus_scp::node_id::NodeID;
use consensus_scp::quorum_set::QuorumSet;
use consensus_scp::slot_spec::Phase;
use consensus_scp::test_utils::{
    fig_2_network, test_node_id, three_node_cycle, three_node_dense_graph, TrivialCombine,
    TrivialValidity,
};
use consensus_scp::value_set::ValueSet;

type TestNode = Node<u32, TrivialValidity, TrivialCombine>;

fn make(node: (NodeID, QuorumSet)) -> TestNode {
    Node::new(node.0, node.1, TrivialValidity, TrivialCombine, 1).expect("node")
}

/// Hands every message to every node but its sender until nothing new is
/// said, then lets a second pass and looks at the timers, for `seconds`
/// seconds at most. Gives back every message that was sent.
fn run(nodes: &mut Vec<TestNode>, first: Vec<Msg<u32>>, seconds: u64) -> Vec<Msg<u32>> {
    let mut sent: Vec<Msg<u32>> = Vec::new();
    let mut queue: Vec<Msg<u32>> = first;
    let mut now: u64 = 0;
    loop {
        while !queue.is_empty() {
            let msg = queue.remove(0);
            for node in nodes.iter_mut() {
                if let Some(out) = node.handle(&msg).expect("handle") {
                    queue.push(out);
                }
            }
            sent.push(msg);
        }
        if now >= seconds * 1000 || nodes.iter().all(|n| n.current_slot_index() > 1) {
            return sent;
        }
        now += 1000;
        for node in nodes.iter_mut() {
            for out in node.process_timeouts(now).expect("timeouts") {
                queue.push(out);
            }
        }
    }
}

fn all_externalized(nodes: &Vec<TestNode>, values: &[u32]) {
    for node in nodes.iter() {
        assert_eq!(node.get_externalized_values(1), Some(values.to_vec()));
        assert_eq!(node.current_slot_index(), 2);
    }
}

#[test]
fn three_node_cycle_externalizes_what_any_node_is_given() {
    for proposer in 0..3 {
        let (n1, n2, n3) = three_node_cycle();
        let mut nodes = vec![make(n1), make(n2), make(n3)];
        let first = nodes[proposer]
            .nominate(ValueSet::from_vec(vec![42]))
            .expect("nominate")
            .expect("msg");
        run(&mut nodes, vec![first], 60);
        all_externalized(&nodes, &[42]);
    }
}

#[test]
fn fig_2_network_externalizes_one_value() {
    let (n1, n2, n3, n4) = fig_2_network();
    let mut nodes = vec![make(n1), make(n2), make(n3), make(n4)];
    let first = nodes[0]
        .nominate(ValueSet::from_vec(vec![1000, 2000]))
        .expect("nominate")
        .expect("msg");
    run(&mut nodes, vec![first], 60);
    all_externalized(&nodes, &[1000, 2000]);
}

#[test]
fn dense_graph_agrees_when_two_nodes_propose() {
    let (n1, n2, n3) = three_node_dense_graph();
    let mut nodes = vec![make(n1), make(n2), make(n3)];
    let a = nodes[0].nominate(ValueSet::from_vec(vec![5])).expect("nominate").expect("msg");
    let b = nodes[2].nominate(ValueSet::from_vec(vec![3])).expect("nominate").expect("msg");
    run(&mut nodes, vec![a, b], 120);
    let agreed = nodes[0].get_externalized_values(1).expect("externalized");
    assert!(!agreed.is_empty());
    for node in nodes.iter() {
        assert_eq!(node.get_externalized_values(1), Some(agreed.clone()));
    }
}

#[test]
fn a_silent_peer_keeps_the_other_from_externalizing() {
    let mut node = make((test_node_id(1), QuorumSet::new_with_node_ids(1, vec![test_node_id(2)])));
    let first = node.nominate(ValueSet::from_vec(vec![7])).expect("nominate").expect("msg");
    assert!(matches!(first.topic, Topic::Nominate(_)));
    let mut resent = 0;
    for second in 1..40u64 {
        for out in node.process_timeouts(second * 1000).expect("timeouts") {
            assert!(out.same(&first));
            resent += 1;
        }
    }
    assert!(resent >= 3);
    assert_eq!(node.current_slot_index(), 1);
    assert!(node.get_slot_metrics().phase == Phase::Nominate);
    assert_eq!(node.get_externalized_values(1), None);
}

#[test]
fn a_peer_that_falls_silent_leaves_the_other_preparing() {
    let mut node1 = make((test_node_id(1), QuorumSet::new_with_node_ids(1, vec![test_node_id(2)])));
    let mut node2 = make((test_node_id(2), QuorumSet::new_with_node_ids(1, vec![test_node_id(1)])));
    let m = node2.nominate(ValueSet::from_vec(vec![7])).expect("nominate").expect("msg");
    let m = node1.handle(&m).expect("handle").expect("msg");
    let m = node2.handle(&m).expect("handle").expect("msg");
    assert!(matches!(m.topic, Topic::NominatePrepare(_, _)));
    // Node 1 never answers again.
    let mut counters: Vec<u32> = Vec::new();
    for second in 1..60u64 {
        for out in node2.process_timeouts(second * 1000).expect("timeouts") {
            match &out.topic {
                Topic::NominatePrepare(_, p) => counters.push(p.B.N),
                Topic::Prepare(p) => counters.push(p.B.N),
                _ => panic!("left the prepare stage"),
            }
        }
    }
    assert!(counters.len() >= 3);
    assert_eq!(counters[0], 2);
    for pair in counters.windows(2) {
        assert_eq!(pair[1], pair[0] + 1);
    }
    assert_eq!(node2.current_slot_index(), 1);
    assert_eq!(node2.get_externalized_values(1), None);
    assert!(node2.get_slot_metrics().bN < INFINITY);
}

/// A small generator of numbers that looks random and is the same on every
/// run.
struct Shuffle {
    state: u64,
}

impl Shuffle {
    fn next(&mut self, below: usize) -> usize {
        self.state = self.state.wrapping_mul(6364136223846793005).wrapping_add(1442695040888963407);
        ((self.state >> 33) as usize) % below
    }
}

#[test]
fn nodes_agree_whatever_the_order_of_delivery() {
    for seed in 0..20u64 {
        let mut shuffle = Shuffle { state: seed };
        let mut nodes: Vec<TestNode> = (1..=4u32)
            .map(|n| {
                let others: Vec<NodeID> =
                    (1..=4u32).filter(|m| *m != n).map(test_node_id).collect();
                make((test_node_id(n), QuorumSet::new_with_node_ids(2, others)))
            })
            .collect();
        // Every node proposes a value of its own.
        let mut queue: Vec<(usize, Msg<u32>)> = Vec::new();
        for from in 0..4 {
            let value = 10 * (from as u32 + 1) + (seed as u32 % 7);
            let msg = nodes[from]
                .nominate(ValueSet::from_vec(vec![value]))
                .expect("nominate")
                .expect("msg");
            for to in 0..4 {
                queue.push((to, msg.duplicate()));
            }
        }
        let mut now = 0u64;
        let mut steps = 0;
        while nodes.iter().any(|n| n.current_slot_index() == 1) {
            steps += 1;
            assert!(steps < 100000, "seed {} does not end", seed);
            if queue.is_empty() {
                now += 1000;
                for from in 0..4 {
                    for out in nodes[from].process_timeouts(now).expect("timeouts") {
                        for to in 0..4 {
                            queue.push((to, out.duplicate()));
                        }
                    }
                }
                continue;
            }
            let (to, msg) = queue.remove(shuffle.next(queue.len()));
            // Now and then a message comes twice.
            if shuffle.next(5) == 0 {
                queue.push((to, msg.duplicate()));
            }
            if let Some(out) = nodes[to].handle(&msg).expect("handle") {
                for other in 0..4 {
                    queue.push((other, out.duplicate()));
                }
            }
        }
        let agreed = nodes[0].get_externalized_values(1).expect("externalized");
        assert!(!agreed.is_empty());
        for node in nodes.iter() {
            assert_eq!(node.get_externalized_values(1), Some(agreed.clone()), "seed {}", seed);
        }
    }
}
