use consensus_scp::node_id::NodeID;
use consensus_scp::quorum_set::{QuorumSet, QuorumSetMember};
use consensus_scp::quorum_set_text::{
    parse_quorum_set, test_quorum_set_from_string, test_quorum_set_to_string,
};
use consensus_scp::test_utils::{
    decimal_string, fig_2_network, parse_node_index, parse_test_node_index,
    recover_test_node_index, test_node_id,
    three_node_cycle, three_node_dense_graph,
};

#[test]
fn test_quorum_set_construction() {
    let qs_string = "([3],1,2,3,4,([2],5,6,([1],7,8)))".to_owned();
    let qs = test_quorum_set_from_string(&qs_string).expect("failed to parse");
    let qs_new_string = test_quorum_set_to_string(&qs);
    assert_eq!(qs_string, qs_new_string);
}

#[test]
#[should_panic]
fn test_quorum_set_parser_fails() {
    let bad_qs_string = "([3],1, [5], 2,3, 4,([2],5, 6,([1],8,7)))".to_owned();
    let _qs = test_quorum_set_from_string(&bad_qs_string).expect("failed to parse");
}

#[test]
fn parsed_quorum_set_has_the_members_written() {
    let qs = test_quorum_set_from_string("([2],7,([1],8,9))").expect("failed to parse");
    let want = QuorumSet::new(
        2,
        vec![
            QuorumSetMember::Node(test_node_id(7)),
            QuorumSetMember::InnerSet(QuorumSet::new_with_node_ids(
                1,
                vec![test_node_id(8), test_node_id(9)],
            )),
        ],
    );
    assert!(qs.same(&want));
    assert!(qs.is_valid());
    assert!(!qs.same(&test_quorum_set_from_string("([2],7,([1],9,8))").expect("parse")));
}

#[test]
fn parser_refuses_what_is_no_quorum_set() {
    for text in [
        "",
        "(",
        "([",
        "([2]",
        "([2],",
        "([2],1",
        "([2],1,)",
        "([2],1)x",
        "([],1)",
        "([2] ,1)",
        "[2],1",
        "([2],a)",
        "([4294967296],1)",
        "([1],4294967296)",
        "([1],(1))",
    ] {
        assert!(parse_quorum_set(text.as_bytes()).is_err(), "{}", text);
    }
}

#[test]
fn parser_takes_the_empty_set_and_large_numbers() {
    let empty = parse_quorum_set(b"()").expect("empty");
    assert!(empty.same(&QuorumSet::empty()));
    assert!(!empty.is_valid());
    let bare = parse_quorum_set(b"([0])").expect("bare");
    assert!(bare.same(&QuorumSet::empty()));
    let big = parse_quorum_set(b"([4294967295],4294967295)").expect("big");
    assert_eq!(big.threshold, 4294967295);
    assert!(!big.is_valid());
    assert_eq!(test_quorum_set_to_string(&big), "([4294967295],4294967295)");
    assert_eq!(test_quorum_set_to_string(&QuorumSet::empty()), "([0])");
}

#[test]
fn test_node_ids_are_told_apart() {
    let a = test_node_id(1);
    let b = test_node_id(2);
    assert!(a.same(&test_node_id(1)));
    assert!(!a.same(&b));
    assert_eq!(a.responder_id, "node1.test.com:8443");
    assert_eq!(test_node_id(4294967295).responder_id, "node4294967295.test.com:8443");
    assert_eq!(a.public_key.len(), 32);
    assert_eq!(&a.public_key[..4], &[0, 0, 0, 1]);
    assert_eq!(decimal_string(0), "0");
    assert_eq!(decimal_string(1090), "1090");
}

#[test]
fn test_node_index_is_recovered() {
    assert_eq!(recover_test_node_index(&test_node_id(0)), 0);
    assert_eq!(recover_test_node_index(&test_node_id(17)), 17);
    assert_eq!(recover_test_node_index(&test_node_id(4294967295)), 4294967295);
    for name in [
        "node.test.com:8443",
        "node01.test.com:8443",
        "node1.test.com:8444",
        "nod1.test.com:8443",
        "node4294967296.test.com:8443",
        "node1",
        "",
    ] {
        let id = NodeID { responder_id: name.to_string(), public_key: vec![] };
        assert_eq!(parse_test_node_index(&id), None, "{}", name);
    }
}

#[test]
fn test_networks_are_as_described() {
    let (n1, n2, n3) = three_node_cycle();
    assert!(n1.0.same(&test_node_id(1)));
    assert_eq!(test_quorum_set_to_string(&n1.1), "([1],2)");
    assert_eq!(test_quorum_set_to_string(&n2.1), "([1],3)");
    assert_eq!(test_quorum_set_to_string(&n3.1), "([1],1)");
    let (n1, n2, n3, n4) = fig_2_network();
    assert!(n4.0.same(&test_node_id(4)));
    assert_eq!(test_quorum_set_to_string(&n1.1), "([2],2,3)");
    assert_eq!(test_quorum_set_to_string(&n2.1), "([2],3,4)");
    assert_eq!(test_quorum_set_to_string(&n3.1), "([2],2,4)");
    assert_eq!(test_quorum_set_to_string(&n4.1), "([2],2,3)");
    let (n1, n2, n3) = three_node_dense_graph();
    assert!(n3.0.same(&test_node_id(3)));
    assert_eq!(test_quorum_set_to_string(&n1.1), "([2],2,3)");
    assert_eq!(test_quorum_set_to_string(&n2.1), "([2],1,3)");
    assert_eq!(test_quorum_set_to_string(&n3.1), "([2],1,2)");
}

#[test]
fn any_address_that_holds_a_number_gives_it() {
    let at = |name: &str| NodeID { responder_id: name.to_string(), public_key: vec![] };
    assert_eq!(recover_test_node_index(&at("node7")), 7);
    assert_eq!(recover_test_node_index(&at("node007.example.org:1")), 7);
    assert_eq!(recover_test_node_index(&at("abcd+12.x")), 12);
    assert_eq!(recover_test_node_index(&at("peer4294967295.")), 4294967295);
    assert_eq!(recover_test_node_index(&at("\u{e9}\u{e9}31.test")), 31);
    assert_eq!(parse_node_index(&at("node1.test.com:8443")), Some(1));
    for name in [
        "",
        "node",
        "nod1",
        "node.1",
        "node-1",
        "node+",
        "node+.1",
        "node1x.test",
        "node 1",
        "node4294967296",
        "node\u{e9}1",
        "no.de1",
    ] {
        assert_eq!(parse_node_index(&at(name)), None, "{}", name);
    }
}
