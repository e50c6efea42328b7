use relgraph::graph::Graph;
use relgraph::node::Node;
use relgraph::node::Relation;
use relgraph::node::RelationDirection;
use relgraph::node::RELATION_DIRECTION_FROM;
use relgraph::node::RELATION_DIRECTION_TO;

fn bytes(s: &str) -> Vec<u8> {
    s.as_bytes().to_vec()
}

#[test]
fn add_node_and_get_by_id() {
    let mut g = Graph::new();
    let a = g.add_node(Node::new(bytes("a")));
    let b = g.add_node(Node::new(bytes("b")));
    assert_eq!(g.get_by_id(&bytes("a")), Some(a));
    assert_eq!(g.get_by_id(&bytes("b")), Some(b));
    assert_eq!(g.get_by_id(&bytes("zz")), None);
}

#[test]
fn get_by_id_returns_latest_for_reused_identifier() {
    let mut g = Graph::new();
    let first = g.add_node(Node::new(bytes("a")));
    let second = g.add_node(Node::new(bytes("a")));
    assert_ne!(first, second);
    assert_eq!(g.get_by_id(&bytes("a")), Some(second));
}

#[test]
fn get_node_resolves_only_issued_handles() {
    let mut g = Graph::new();
    let a = g.add_node(Node::new(bytes("a")));
    assert!(g.get_node(a).is_some());
    assert_eq!(g.get_node(a).unwrap().id, bytes("a"));
    assert!(g.get_node(a + 1).is_none());
}

#[test]
fn relation_recorded_on_both_ends() {
    let mut g = Graph::new();
    let a = g.add_node(Node::new(bytes("a")));
    let b = g.add_node(Node::new(bytes("b")));
    g.add_relation(a, b, &bytes("friends"));

    let node_a = g.get_node(a).unwrap();
    let outgoing = node_a.get_relation(Some(RELATION_DIRECTION_TO), None);
    assert_eq!(outgoing.len(), 1);
    assert_eq!(outgoing[0].kind, bytes("friends"));
    assert_eq!(outgoing[0].direction, RelationDirection::To(b));
    assert_eq!(outgoing[0].node(), b);
    assert_eq!(g.get_node(outgoing[0].node()).unwrap().id, bytes("b"));

    let node_b = g.get_node(b).unwrap();
    let incoming = node_b.get_relation(Some(RELATION_DIRECTION_FROM), None);
    assert_eq!(incoming.len(), 1);
    assert_eq!(incoming[0].kind, bytes("friends"));
    assert_eq!(incoming[0].direction, RelationDirection::From(a));
    assert_eq!(incoming[0].node(), a);
    assert_eq!(g.get_node(incoming[0].node()).unwrap().id, bytes("a"));
}

#[test]
fn unfiltered_query_counts_all_relations() {
    let mut g = Graph::new();
    let a = g.add_node(Node::new(bytes("a")));
    let b = g.add_node(Node::new(bytes("b")));
    let c = g.add_node(Node::new(bytes("c")));
    g.add_relation(a, b, &bytes("friends"));
    g.add_relation(a, c, &bytes("colleagues"));
    g.add_relation(c, a, &bytes("family"));

    let node_a = g.get_node(a).unwrap();
    let everything = node_a.get_relation(None, None);
    assert_eq!(everything.len(), 3);
    assert_eq!(everything[0].direction, RelationDirection::To(b));
    assert_eq!(everything[0].kind, bytes("friends"));
    assert_eq!(everything[1].direction, RelationDirection::To(c));
    assert_eq!(everything[1].kind, bytes("colleagues"));
    assert_eq!(everything[2].direction, RelationDirection::From(c));
    assert_eq!(everything[2].kind, bytes("family"));
}

#[test]
fn absent_label_yields_empty() {
    let mut g = Graph::new();
    let a = g.add_node(Node::new(bytes("a")));
    let b = g.add_node(Node::new(bytes("b")));
    g.add_relation(a, b, &bytes("friends"));

    let node_a = g.get_node(a).unwrap();
    assert!(node_a.get_relation(None, Some(&bytes("enemies"))).is_empty());
    assert!(
        node_a.get_relation(Some(RELATION_DIRECTION_TO), Some(&bytes("enemies"))).is_empty()
    );
}

#[test]
fn both_filters_give_intersection_of_single_filters() {
    let mut g = Graph::new();
    let a = g.add_node(Node::new(bytes("a")));
    let b = g.add_node(Node::new(bytes("b")));
    let c = g.add_node(Node::new(bytes("c")));
    g.add_relation(a, b, &bytes("friends"));
    g.add_relation(a, c, &bytes("family"));
    g.add_relation(b, a, &bytes("friends"));
    g.add_relation(c, a, &bytes("family"));

    let node_a = g.get_node(a).unwrap();
    let by_direction = node_a.get_relation(Some(RELATION_DIRECTION_TO), None);
    let by_label = node_a.get_relation(None, Some(&bytes("friends")));
    let by_both = node_a.get_relation(Some(RELATION_DIRECTION_TO), Some(&bytes("friends")));

    let intersection: Vec<&Relation> = by_direction
        .iter()
        .filter(|r| by_label.iter().any(|s| s.direction == r.direction && s.kind == r.kind))
        .collect();
    assert_eq!(by_both.len(), intersection.len());
    for (got, expected) in by_both.iter().zip(intersection.iter()) {
        assert_eq!(got.direction, expected.direction);
        assert_eq!(got.kind, expected.kind);
    }
    assert_eq!(by_both.len(), 1);
    assert_eq!(by_both[0].direction, RelationDirection::To(b));
}

#[test]
fn neighbors_with_unknown_id_yield_empty() {
    let mut g = Graph::new();
    let a = g.add_node(Node::new(bytes("a")));
    let b = g.add_node(Node::new(bytes("b")));
    g.add_relation(a, b, &bytes("friends"));

    let node_a = g.get_node(a).unwrap();
    assert!(node_a.get_neighbors_with_id(&g, &bytes("zz")).is_empty());

    let lonely = Node::new(bytes("lonely"));
    assert!(lonely.get_neighbors_with_id(&g, &bytes("b")).is_empty());
}

#[test]
fn neighbors_with_id_keep_order_and_multiplicity() {
    let mut g = Graph::new();
    let a = g.add_node(Node::new(bytes("a")));
    let b = g.add_node(Node::new(bytes("b")));
    let c = g.add_node(Node::new(bytes("c")));
    g.add_relation(a, b, &bytes("friends"));
    g.add_relation(a, c, &bytes("friends"));
    g.add_relation(a, b, &bytes("colleagues"));

    let node_a = g.get_node(a).unwrap();
    assert_eq!(node_a.get_neighbors_with_id(&g, &bytes("b")), vec![b, b]);
    assert_eq!(node_a.get_neighbors_with_id(&g, &bytes("c")), vec![c]);
}

#[test]
fn cycle_with_one_label_shows_two_entries_at_a() {
    let mut g = Graph::new();
    let a = g.add_node(Node::new(bytes("a")));
    let b = g.add_node(Node::new(bytes("b")));
    let c = g.add_node(Node::new(bytes("c")));
    g.add_relation(a, b, &bytes("friends"));
    g.add_relation(b, c, &bytes("friends"));
    g.add_relation(c, a, &bytes("friends"));

    let node_a = g.get_node(a).unwrap();
    let friends = node_a.get_relation(None, Some(&bytes("friends")));
    assert_eq!(friends.len(), 2);
    assert_eq!(friends[0].direction, RelationDirection::To(b));
    assert_eq!(friends[0].kind, bytes("friends"));
    assert_eq!(friends[1].direction, RelationDirection::From(c));
    assert_eq!(friends[1].kind, bytes("friends"));
}

#[test]
fn cycle_with_mixed_labels_shows_one_entry_at_a() {
    let mut g = Graph::new();
    let a = g.add_node(Node::new(bytes("a")));
    let b = g.add_node(Node::new(bytes("b")));
    let c = g.add_node(Node::new(bytes("c")));
    g.add_relation(a, b, &bytes("friends"));
    g.add_relation(b, c, &bytes("friends"));
    g.add_relation(c, a, &bytes("family"));

    let node_a = g.get_node(a).unwrap();
    let friends = node_a.get_relation(None, Some(&bytes("friends")));
    assert_eq!(friends.len(), 1);
    assert_eq!(friends[0].direction, RelationDirection::To(b));
    assert_eq!(friends[0].kind, bytes("friends"));
}

#[test]
fn long_traversal_around_cycle_never_dangles() {
    let mut g = Graph::new();
    let a = g.add_node(Node::new(bytes("a")));
    let b = g.add_node(Node::new(bytes("b")));
    let c = g.add_node(Node::new(bytes("c")));
    g.add_relation(a, b, &bytes("friends"));
    g.add_relation(b, c, &bytes("friends"));
    g.add_relation(c, a, &bytes("friends"));

    let mut current = a;
    for _ in 0..10_000 {
        let node = g.get_node(current).expect("a handle on file must resolve");
        let outgoing = node.get_relation(Some(RELATION_DIRECTION_TO), None);
        assert!(!outgoing.is_empty());
        current = outgoing[0].node();
    }
    // 10_000 hops around a three-node cycle starting at `a` end at `b`.
    assert_eq!(current, 10_000 % 3);
    assert_eq!(g.get_node(current).unwrap().id, bytes("b"));
}

#[test]
fn self_loop_records_both_endpoints_on_one_node() {
    let mut g = Graph::new();
    let a = g.add_node(Node::new(bytes("a")));
    g.add_relation(a, a, &bytes("self"));

    let node_a = g.get_node(a).unwrap();
    let everything = node_a.get_relation(None, None);
    assert_eq!(everything.len(), 2);
    assert_eq!(everything[0].direction, RelationDirection::To(a));
    assert_eq!(everything[1].direction, RelationDirection::From(a));
    assert_eq!(node_a.get_neighbors_with_id(&g, &bytes("a")), vec![a, a]);
}

#[test]
fn convenience_accessors_match_direction_filters() {
    let mut g = Graph::new();
    let a = g.add_node(Node::new(bytes("a")));
    let b = g.add_node(Node::new(bytes("b")));
    g.add_relation(a, b, &bytes("friends"));
    g.add_relation(b, a, &bytes("family"));

    let node_a = g.get_node(a).unwrap();
    let outgoing = node_a.get_outgoing_relations();
    assert_eq!(outgoing.len(), 1);
    assert_eq!(outgoing[0].direction, RelationDirection::To(b));
    assert_eq!(outgoing[0].kind, bytes("friends"));
    let incoming = node_a.get_incoming_relations();
    assert_eq!(incoming.len(), 1);
    assert_eq!(incoming[0].direction, RelationDirection::From(b));
    assert_eq!(incoming[0].kind, bytes("family"));
}

#[test]
fn relation_record_reports_direction_and_peer() {
    let outgoing = Relation::new(RelationDirection::To(5), bytes("friends"));
    assert_eq!(outgoing.node(), 5);
    assert_eq!(outgoing.direction.id(), RELATION_DIRECTION_TO);
    assert_eq!(outgoing.kind, bytes("friends"));

    let incoming = Relation::new(RelationDirection::From(7), bytes("family"));
    assert_eq!(incoming.node(), 7);
    assert_eq!(incoming.direction.id(), RELATION_DIRECTION_FROM);
    assert_eq!(incoming.kind, bytes("family"));
}

#[test]
fn repeated_reads_return_identical_results() {
    let mut g = Graph::new();
    let a = g.add_node(Node::new(bytes("a")));
    let b = g.add_node(Node::new(bytes("b")));
    let c = g.add_node(Node::new(bytes("c")));
    g.add_relation(a, b, &bytes("friends"));
    g.add_relation(b, c, &bytes("friends"));
    g.add_relation(c, a, &bytes("family"));
    let g = g;

    let node_a = g.get_node(a).unwrap();
    let expected: Vec<(RelationDirection, Vec<u8>)> = node_a
        .get_relation(None, None)
        .iter()
        .map(|r| (r.direction, r.kind.clone()))
        .collect();
    let expected_neighbors = node_a.get_neighbors_with_id(&g, &bytes("b"));

    // On a fully constructed, no-longer-mutated graph every read is a pure
    // function of the state: repeated queries must agree exactly.
    for _ in 0..1_000 {
        let n = g.get_node(a).unwrap();
        let rels = n.get_relation(None, None);
        assert_eq!(rels.len(), expected.len());
        for (got, want) in rels.iter().zip(expected.iter()) {
            assert_eq!(got.direction, want.0);
            assert_eq!(got.kind, want.1);
        }
        assert_eq!(n.get_neighbors_with_id(&g, &bytes("b")), expected_neighbors);
    }
}

#[test]
fn fresh_node_has_no_relations() {
    let node = Node::new(bytes("a"));
    assert_eq!(node.id, bytes("a"));
    assert!(node.neighbors.is_empty());
    assert!(node.get_relation(None, None).is_empty());
}
