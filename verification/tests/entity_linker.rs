use entity_linker::bridge_finder::Bridge;
use entity_linker::edges::Edges;
use entity_linker::graph::Graph;
use entity_linker::input::{validate_abn, Record};
use entity_linker::node::{Node, NodeError, NodeKind};

fn node(kind: &str, value: &str) -> Node {
    Node::new(kind, value.to_string()).unwrap()
}

fn account(value: &str) -> Node {
    node("account_number", value)
}

fn weight(g: &Graph, from: &Node, to: &Node) -> Option<u32> {
    g.edge_weight(from, to)
}

fn run_union_find(g: &mut Graph) {
    g.components = g.nodes().len();
    let nodes = g.nodes();
    for n in &nodes {
        let adjacent = g.adjacent_nodes(n);
        for a in &adjacent {
            let r1 = g.find(n);
            let r2 = g.find(a);
            if !(r1 == r2) && g.components == 0 {
                panic!("component counter underflow");
            }
            g.union(n, a);
        }
    }
}

fn prune_bridges(g: &mut Graph, bridges: &[Bridge]) {
    for b in bridges {
        g.remove_edge(&b.from, &b.to);
        g.remove_edge(&b.to, &b.from);
    }
}

#[test]
fn test_valid_abn() {
    let valid_abn = "11365315258";

    assert_eq!(
        validate_abn(valid_abn.to_string()),
        Some(valid_abn.to_string())
    );
}

#[test]
fn test_invalid_abn() {
    let invalid_abn = "11365315259";

    assert_eq!(validate_abn(invalid_abn.to_string()), None);
}

#[test]
fn abn_rejects_wrong_length() {
    assert_eq!(validate_abn("1136531525".to_string()), None);
    assert_eq!(validate_abn("".to_string()), None);
}

#[test]
fn node_kinds_parse() {
    assert_eq!(node("account_number", "a").kind, NodeKind::AccountNumber);
    assert_eq!(node("domain", "a").kind, NodeKind::Domain);
    assert_eq!(node("abn", "a").kind, NodeKind::Abn);
    assert_eq!(node("group_id", "a").kind, NodeKind::GroupId);
}

#[test]
fn node_unknown_kind_is_an_error() {
    assert_eq!(
        Node::new("postcode", "2000".to_string()),
        Err(NodeError::UnknownKind)
    );
}

#[test]
fn node_equality_is_structural() {
    assert_eq!(node("domain", "a.com"), node("domain", "a.com"));
    assert_ne!(node("domain", "a.com"), node("domain", "b.com"));
    assert_ne!(node("domain", "a.com"), node("group_id", "a.com"));
}

#[test]
fn record_canonicalises_fields() {
    let record = Record {
        id: "1".to_string(),
        group_id: "NULL".to_string(),
        account_number: " AB C1 ".to_string(),
        abn: "11365315258".to_string(),
        domain: "Example.COM".to_string(),
        generic_domain: false,
    };
    assert_eq!(record.group_id(), None);
    assert_eq!(record.account_number(), Some("abc1".to_string()));
    assert_eq!(record.abn(), Some("11365315258".to_string()));
    assert_eq!(record.domain(), Some("example.com".to_string()));
    let values = record.node_values();
    let expected = vec![
        ("account_number", "abc1".to_string()),
        ("abn", "11365315258".to_string()),
        ("domain", "example.com".to_string()),
    ];
    let got: Vec<(&str, String)> = values;
    assert_eq!(got, expected);
}

#[test]
fn record_trims_surrounding_whitespace() {
    let record = Record {
        id: "1".to_string(),
        group_id: "\tAbC\t".to_string(),
        account_number: "".to_string(),
        abn: "".to_string(),
        domain: "generic.example".to_string(),
        generic_domain: true,
    };
    assert_eq!(record.group_id(), Some("abc".to_string()));
    assert_eq!(record.account_number(), None);
    assert_eq!(record.abn(), None);
    // generic domains are discarded
    assert_eq!(record.domain(), None);
}

#[test]
fn node_value_is_kept() {
    let n = node("domain", "a.com");
    assert_eq!(n.value(), "a.com");
}

#[test]
fn edges_track_weights_and_neighbors() {
    let a = account("a");
    let b = account("b");
    let mut e = Edges::new();
    assert_eq!(e.get_weight(&a), None);
    e.add_or_increment(a.clone());
    e.add_or_increment(a.clone());
    e.add_or_increment(b.clone());
    assert_eq!(e.get_weight(&a), Some(&2));
    assert_eq!(e.get_weight(&b), Some(&1));
    assert_eq!(e.nodes(), vec![a.clone(), b.clone()]);
    e.remove_edge(&a);
    assert_eq!(e.get_weight(&a), None);
    assert_eq!(e.nodes(), vec![b.clone()]);
}

#[test]
fn empty_graph_has_nothing() {
    let g = Graph::new(0);
    assert_eq!(g.nodes().len(), 0);
    assert_eq!(g.find_bridges().len(), 0);
    assert_eq!(g.components, 0);
}

#[test]
fn clique_weights_accumulate() {
    let a = account("a");
    let b = account("b");
    let mut g = Graph::new(4);
    g.add_connected_component(&[a.clone(), b.clone()]);
    assert_eq!(weight(&g, &a, &b), Some(1));
    assert_eq!(weight(&g, &b, &a), Some(1));
    g.add_connected_component(&[a.clone(), b.clone()]);
    // repeating the same group doubles every pairwise weight in the clique
    assert_eq!(weight(&g, &a, &b), Some(2));
    assert_eq!(weight(&g, &b, &a), Some(2));
}

#[test]
fn duplicate_group_members_multiply_weights() {
    let a = account("a");
    let b = account("b");
    let mut g = Graph::new(4);
    // a appears twice, so the pair (a, b) is asserted twice over
    g.add_connected_component(&[a.clone(), a.clone(), b.clone()]);
    assert_eq!(weight(&g, &a, &b), Some(2));
    assert_eq!(weight(&g, &b, &a), Some(2));
    assert_eq!(weight(&g, &a, &a), None);
}

#[test]
fn abn_without_digits_keeps_only_digits() {
    // eleven non-digit characters: the weighted sum over no digits is zero,
    // which the checksum accepts, and only the digit characters are returned
    assert_eq!(validate_abn("abcdefghijk".to_string()), Some("".to_string()));
}

#[test]
fn adjacency_is_symmetric() {
    let a = account("a");
    let b = account("b");
    let c = account("c");
    let mut g = Graph::new(8);
    g.add_connected_component(&[a.clone(), b.clone(), c.clone()]);
    for from in [&a, &b, &c] {
        for to in [&a, &b, &c] {
            assert_eq!(weight(&g, from, to), weight(&g, to, from));
        }
    }
    // pruning removes both directions together
    g.remove_edge(&a, &b);
    g.remove_edge(&b, &a);
    assert_eq!(weight(&g, &a, &b), None);
    assert_eq!(weight(&g, &b, &a), None);
}

#[test]
fn single_node_group_stays_out_of_graph() {
    let a = account("a");
    let mut g = Graph::new(2);
    g.add_connected_component(&[a.clone()]);
    assert_eq!(g.nodes().len(), 0);
    assert_eq!(g.adjacent_nodes(&a).len(), 0);
}

#[test]
fn triangle_has_no_bridges() {
    let a = account("a");
    let b = account("b");
    let c = account("c");
    let mut g = Graph::new(8);
    g.add_connected_component(&[a, b, c]);
    assert_eq!(g.find_bridges().len(), 0);
}

#[test]
fn path_reports_only_its_inner_edge() {
    let a = account("a");
    let b = account("b");
    let c = account("c");
    let d = account("d");
    let mut g = Graph::new(8);
    g.add_connected_component(&[a.clone(), b.clone()]);
    g.add_connected_component(&[b.clone(), c.clone()]);
    g.add_connected_component(&[c.clone(), d.clone()]);
    let bridges = g.find_bridges();
    // (a, b) and (c, d) are cut edges too, but their outer endpoints are
    // leaves, so only (b, c) passes the validity filter
    assert_eq!(bridges.len(), 1);
    assert_eq!(bridges[0].from, b);
    assert_eq!(bridges[0].to, c);
}

fn two_triangles_joined() -> (Graph, Node, Node) {
    let a = account("a");
    let b = account("b");
    let c = account("c");
    let d = account("d");
    let e = account("e");
    let f = account("f");
    let mut g = Graph::new(16);
    g.add_connected_component(&[a, b, c.clone()]);
    g.add_connected_component(&[d.clone(), e, f]);
    g.add_connected_component(&[c.clone(), d.clone()]);
    (g, c, d)
}

#[test]
fn joined_triangles_split_on_pruning() {
    let (mut unpruned, _, _) = two_triangles_joined();
    run_union_find(&mut unpruned);
    assert_eq!(unpruned.components, 1);

    let (mut pruned, c, d) = two_triangles_joined();
    let bridges = pruned.find_bridges();
    assert_eq!(bridges.len(), 1);
    assert_eq!(bridges[0].from, c);
    assert_eq!(bridges[0].to, d);
    prune_bridges(&mut pruned, &bridges);
    run_union_find(&mut pruned);
    assert_eq!(pruned.components, 2);
}

#[test]
fn well_evidenced_bridge_is_kept() {
    let a = account("a");
    let b = account("b");
    let c = account("c");
    let d = account("d");
    let e = account("e");
    let f = account("f");
    let mut g = Graph::new(16);
    g.add_connected_component(&[a, b, c.clone()]);
    g.add_connected_component(&[d.clone(), e, f]);
    g.add_connected_component(&[c.clone(), d.clone()]);
    g.add_connected_component(&[c.clone(), d.clone()]);
    // the joining edge has weight 2: too well-evidenced to sever
    assert_eq!(weight(&g, &c, &d), Some(2));
    let bridges = g.find_bridges();
    assert_eq!(bridges.len(), 0);
    run_union_find(&mut g);
    assert_eq!(g.components, 1);
}

#[test]
fn union_decrements_components_once() {
    let a = account("a");
    let b = account("b");
    let mut g = Graph::new(4);
    g.add_connected_component(&[a.clone(), b.clone()]);
    g.components = g.nodes().len();
    assert_eq!(g.components, 2);
    g.union(&a, &b);
    assert_eq!(g.components, 1);
    // a second union of the same pair is a no-op
    g.union(&a, &b);
    assert_eq!(g.components, 1);
}

#[test]
fn find_is_stable_under_compression() {
    let a = account("a");
    let b = account("b");
    let c = account("c");
    let mut g = Graph::new(8);
    g.add_connected_component(&[a.clone(), b.clone()]);
    g.add_connected_component(&[b.clone(), c.clone()]);
    g.components = g.nodes().len();
    g.union(&a, &b);
    g.union(&b, &c);
    let r1 = g.find(&a);
    let r2 = g.find(&a);
    assert_eq!(r1, r2);
    assert_eq!(g.find(&b), r1);
    assert_eq!(g.find(&c), r1);
}
