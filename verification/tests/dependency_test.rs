use rge_core::asset_id::AssetId;
use rge_core::dependency::{DepError, DepGraph};

fn id(s: &[u8]) -> AssetId {
    AssetId::from_bytes(s)
}

#[test]
fn empty_graph_has_no_edges() {
    let g = DepGraph::new();
    assert!(g.is_empty());
    assert_eq!(g.edge_count(), 0);
}

#[test]
fn add_edge_records_in_both_directions() {
    let mut g = DepGraph::new();
    let a = id(b"a");
    let b = id(b"b");
    g.add_edge(a, b).unwrap();
    let deps = g.direct_dependencies(&a);
    assert_eq!(deps, vec![b]);
    let dependents = g.direct_dependents(&b);
    assert_eq!(dependents, vec![a]);
}

#[test]
fn add_edge_is_idempotent() {
    let mut g = DepGraph::new();
    let a = id(b"a");
    let b = id(b"b");
    g.add_edge(a, b).unwrap();
    g.add_edge(a, b).unwrap();
    g.add_edge(a, b).unwrap();
    assert_eq!(g.edge_count(), 1);
}

#[test]
fn add_self_edge_is_rejected() {
    let mut g = DepGraph::new();
    let a = id(b"a");
    let err = g.add_edge(a, a).unwrap_err();
    assert_eq!(err, DepError::SelfEdge(a));
}

#[test]
fn transitive_closure_walks_chain() {
    let mut graph = DepGraph::new();
    let asset_a = id(b"a");
    let asset_b = id(b"b");
    let asset_c = id(b"c");
    let asset_d = id(b"d");
    graph.add_edge(asset_a, asset_b).unwrap();
    graph.add_edge(asset_b, asset_c).unwrap();
    graph.add_edge(asset_c, asset_d).unwrap();
    let mut got = graph.transitive_closure(&asset_a).unwrap();
    got.sort();
    let mut want = vec![asset_b, asset_c, asset_d];
    want.sort();
    assert_eq!(got, want);
}

#[test]
fn invalidation_cascade_walks_reverse() {
    let mut g = DepGraph::new();
    let a = id(b"a");
    let b = id(b"b");
    let c = id(b"c");
    g.add_edge(a, b).unwrap();
    g.add_edge(b, c).unwrap();
    let mut got = g.invalidation_cascade(&c).unwrap();
    got.sort();
    let mut want = vec![a, b];
    want.sort();
    assert_eq!(got, want);
}

#[test]
fn invalidation_cascade_handles_diamond() {
    let mut graph = DepGraph::new();
    let asset_a = id(b"a");
    let asset_b = id(b"b");
    let asset_c = id(b"c");
    let asset_d = id(b"d");
    graph.add_edge(asset_a, asset_b).unwrap();
    graph.add_edge(asset_a, asset_c).unwrap();
    graph.add_edge(asset_b, asset_d).unwrap();
    graph.add_edge(asset_c, asset_d).unwrap();
    let got = graph.invalidation_cascade(&asset_d).unwrap();
    assert_eq!(got.len(), 3);
    assert!(got.contains(&asset_a));
    assert!(got.contains(&asset_b));
    assert!(got.contains(&asset_c));
}

#[test]
fn transitive_closure_detects_cycle() {
    let mut g = DepGraph::new();
    let a = id(b"a");
    let b = id(b"b");
    g.add_edge(a, b).unwrap();
    g.add_edge(b, a).unwrap();
    let res = g.transitive_closure(&a);
    assert!(matches!(res, Err(DepError::Cycle(_))));
}

#[test]
fn invalidation_cascade_detects_cycle() {
    let mut g = DepGraph::new();
    let a = id(b"a");
    let b = id(b"b");
    g.add_edge(a, b).unwrap();
    g.add_edge(b, a).unwrap();
    let res = g.invalidation_cascade(&a);
    assert!(matches!(res, Err(DepError::Cycle(_))));
}

#[test]
fn remove_edge_undoes_add() {
    let mut g = DepGraph::new();
    let a = id(b"a");
    let b = id(b"b");
    g.add_edge(a, b).unwrap();
    g.remove_edge(a, b);
    assert!(g.is_empty());
    assert!(g.direct_dependencies(&a).is_empty());
    assert!(g.direct_dependents(&b).is_empty());
}

#[test]
fn remove_edge_only_targets_specified_pair() {
    let mut g = DepGraph::new();
    let a = id(b"a");
    let b = id(b"b");
    let c = id(b"c");
    g.add_edge(a, b).unwrap();
    g.add_edge(a, c).unwrap();
    g.remove_edge(a, b);
    assert_eq!(g.direct_dependencies(&a), vec![c]);
}

#[test]
fn forget_drops_all_edges_touching_asset() {
    let mut g = DepGraph::new();
    let a = id(b"a");
    let b = id(b"b");
    let c = id(b"c");
    g.add_edge(a, b).unwrap();
    g.add_edge(c, b).unwrap();
    g.add_edge(b, a).unwrap();
    g.forget(&b);
    assert!(g.direct_dependencies(&a).is_empty());
    assert!(g.direct_dependencies(&c).is_empty());
    assert!(g.direct_dependents(&a).is_empty());
    assert!(g.direct_dependents(&b).is_empty());
}

#[test]
fn missing_node_queries_return_empty() {
    let g = DepGraph::new();
    let a = id(b"a");
    assert!(g.direct_dependencies(&a).is_empty());
    assert!(g.direct_dependents(&a).is_empty());
    assert!(g.transitive_closure(&a).unwrap().is_empty());
    assert!(g.invalidation_cascade(&a).unwrap().is_empty());
}

#[test]
fn long_chain_does_not_overflow_stack() {
    let mut g = DepGraph::new();
    let nodes: Vec<AssetId> = (0..1000u32).map(|i| AssetId::from_bytes(&i.to_le_bytes())).collect();
    for w in nodes.windows(2) {
        g.add_edge(w[0], w[1]).unwrap();
    }
    let got = g.transitive_closure(&nodes[0]).unwrap();
    assert_eq!(got.len(), 999);
}

#[test]
fn closure_is_sorted_and_excludes_unreachable() {
    let mut g = DepGraph::new();
    let a = id(b"a");
    let b = id(b"b");
    let c = id(b"c");
    let z = id(b"z");
    g.add_edge(a, b).unwrap();
    g.add_edge(b, c).unwrap();
    g.add_edge(z, a).unwrap();
    let got = g.transitive_closure(&a).unwrap();
    let mut want = vec![b, c];
    want.sort();
    assert_eq!(got, want);
    let cascade = g.invalidation_cascade(&a).unwrap();
    assert_eq!(cascade, vec![z]);
}

#[test]
fn invalidation_cascade_reports_a_cycle_downstream() {
    let mut g = DepGraph::new();
    let b = AssetId::from_bytes(b"b");
    let c = AssetId::from_bytes(b"c");
    let d = AssetId::from_bytes(b"d");
    g.add_edge(b, d).unwrap();
    g.add_edge(c, b).unwrap();
    g.add_edge(b, c).unwrap();
    match g.invalidation_cascade(&d) {
        Err(DepError::Cycle(x)) => {
            let least = if b.raw() < c.raw() { b } else { c };
            assert_eq!(x, least);
        }
        other => panic!("expected a cycle, got {other:?}"),
    }
    // The closure from d's side sees no cycle through d itself.
    assert!(g.transitive_closure(&d).unwrap().is_empty());
}
