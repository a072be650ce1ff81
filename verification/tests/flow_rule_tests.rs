use prime_ledger::flow_rule::{
    allowed_direct, batch_allowed, batch_allowed_u8, forbidden_bypass, node_from_u8,
    transition_allowed, transition_allowed_u8, EdgeError, Node,
};

const NODES: [Node; 8] =
    [Node::S0, Node::S1, Node::S2, Node::S3, Node::S4, Node::S5, Node::S6, Node::S7];

const WHITELIST: [(Node, Node); 5] = [
    (Node::S1, Node::S2),
    (Node::S5, Node::S6),
    (Node::S3, Node::S0),
    (Node::S7, Node::S4),
    (Node::S1, Node::S0),
];

#[test]
fn persistence_always_ok() {
    for n in [
        Node::S0,
        Node::S1,
        Node::S2,
        Node::S3,
        Node::S4,
        Node::S5,
        Node::S6,
        Node::S7,
    ] {
        assert!(transition_allowed(n, n));
    }
}

#[test]
fn even_to_odd_must_be_whitelisted() {
    assert!(!transition_allowed(Node::S2, Node::S1)); // 2→1 forbidden
    assert!(transition_allowed(Node::S1, Node::S2)); // 1→2 allowed (work)
}

#[test]
fn heat_dumps_ok() {
    assert!(transition_allowed(Node::S3, Node::S0));
    assert!(transition_allowed(Node::S7, Node::S4));
}

#[test]
fn whitelisted_edges_are_allowed() {
    for (s, d) in WHITELIST {
        assert!(allowed_direct(s, d));
        assert!(transition_allowed(s, d));
    }
    assert!(transition_allowed(Node::S1, Node::S0));
    assert!(transition_allowed(Node::S5, Node::S6));
}

#[test]
fn even_to_odd_is_never_allowed() {
    for s in NODES {
        for d in NODES {
            if s.is_even() && !d.is_even() {
                assert!(!transition_allowed(s, d));
                assert!(forbidden_bypass(s, d));
            } else {
                assert!(!forbidden_bypass(s, d));
            }
        }
    }
}

#[test]
fn other_edges_go_by_parity() {
    for s in NODES {
        for d in NODES {
            let expected = s == d || WHITELIST.contains(&(s, d)) || s.is_even() == d.is_even();
            assert_eq!(transition_allowed(s, d), expected);
        }
    }
    assert!(transition_allowed(Node::S0, Node::S4));
    assert!(transition_allowed(Node::S3, Node::S7));
    assert!(!transition_allowed(Node::S3, Node::S6));
    assert!(!transition_allowed(Node::S1, Node::S4));
}

#[test]
fn index_and_node_from_u8_are_inverse() {
    for (i, n) in NODES.iter().enumerate() {
        assert_eq!(n.index() as usize, i);
        assert_eq!(node_from_u8(i as u8), Some(*n));
        assert_eq!(n.is_even(), i % 2 == 0);
    }
    assert_eq!(node_from_u8(8), None);
    assert_eq!(node_from_u8(255), None);
}

#[test]
fn batch_is_the_elementwise_map() {
    let edges = vec![
        (Node::S0, Node::S0),
        (Node::S2, Node::S1),
        (Node::S1, Node::S2),
        (Node::S7, Node::S4),
        (Node::S4, Node::S7),
    ];
    assert_eq!(batch_allowed(&edges), vec![true, false, true, true, false]);
    assert_eq!(batch_allowed(&[]), Vec::<bool>::new());
}

#[test]
fn raw_indices_are_checked_source_first() {
    assert_eq!(transition_allowed_u8(1, 2), Ok(true));
    assert_eq!(transition_allowed_u8(2, 1), Ok(false));
    assert_eq!(transition_allowed_u8(8, 1), Err(EdgeError::BadSource));
    assert_eq!(transition_allowed_u8(1, 8), Err(EdgeError::BadDestination));
    assert_eq!(transition_allowed_u8(9, 9), Err(EdgeError::BadSource));
}

#[test]
fn raw_batch_fails_on_the_first_bad_pair() {
    assert_eq!(batch_allowed_u8(&[(1, 2), (2, 1), (3, 0)]), Ok(vec![true, false, true]));
    assert_eq!(batch_allowed_u8(&[(1, 2), (2, 9), (8, 0)]), Err(EdgeError::BadDestination));
    assert_eq!(batch_allowed_u8(&[(1, 2), (8, 9), (2, 9)]), Err(EdgeError::BadSource));
    assert_eq!(batch_allowed_u8(&[]), Ok(Vec::new()));
}
