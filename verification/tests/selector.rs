use cargo_downgrade::graph::DepGraph;

fn graph(names: &[&str], edges: &[&[usize]]) -> DepGraph {
    DepGraph {
        names: names.iter().map(|s| s.to_string()).collect(),
        edges: edges.iter().map(|row| row.to_vec()).collect(),
    }
}

fn sorted(mut v: Vec<String>) -> Vec<String> {
    v.sort();
    v
}

#[test]
fn single_root_two_levels() {
    // roots {A}, A -> {B, C}, B -> {D}
    let g = graph(&["A", "B", "C", "D"], &[&[1, 2], &[3], &[], &[]]);
    let depth1 = sorted(cargo_downgrade::graph::get_dependencies(&g, Some(1)));
    assert_eq!(depth1, vec!["B".to_string(), "C".to_string()]);
    let depth2 = sorted(cargo_downgrade::graph::get_dependencies(&g, Some(2)));
    assert_eq!(depth2, vec!["D".to_string()]);
    let all = sorted(cargo_downgrade::graph::get_dependencies(&g, None));
    assert_eq!(all, vec!["B".to_string(), "C".to_string(), "D".to_string()]);
}

#[test]
fn root_name_never_selected() {
    let g = graph(&["root", "a", "b"], &[&[1], &[2], &[]]);
    let all = cargo_downgrade::graph::get_dependencies(&g, None);
    assert!(!all.contains(&"root".to_string()));
    for d in 1..=5u8 {
        let tier = cargo_downgrade::graph::get_dependencies(&g, Some(d));
        assert!(!tier.contains(&"root".to_string()));
    }
}

#[test]
fn depth_beyond_graph_is_empty() {
    let g = graph(&["A", "B"], &[&[1], &[]]);
    let r = cargo_downgrade::graph::get_dependencies(&g, Some(7));
    assert!(r.is_empty());
}

#[test]
fn node_reachable_at_two_distances() {
    // A -> {B, C}, B -> {C}: C sits in tier 1 and in tier 2
    let g = graph(&["A", "B", "C"], &[&[1, 2], &[2], &[]]);
    let depth1 = sorted(cargo_downgrade::graph::get_dependencies(&g, Some(1)));
    assert_eq!(depth1, vec!["B".to_string(), "C".to_string()]);
    let depth2 = sorted(cargo_downgrade::graph::get_dependencies(&g, Some(2)));
    assert_eq!(depth2, vec!["C".to_string()]);
    let all = sorted(cargo_downgrade::graph::get_dependencies(&g, None));
    assert_eq!(all, vec!["B".to_string(), "C".to_string()]);
}

#[test]
fn shared_dependency_deduplicated() {
    // two roots that both depend on the same package
    let g = graph(&["r1", "r2", "shared"], &[&[2], &[2], &[]]);
    let all = cargo_downgrade::graph::get_dependencies(&g, None);
    assert_eq!(all, vec!["shared".to_string()]);
}

#[test]
fn empty_graph() {
    let g = graph(&[], &[]);
    assert!(cargo_downgrade::graph::get_dependencies(&g, None).is_empty());
    assert!(cargo_downgrade::graph::get_dependencies(&g, Some(1)).is_empty());
}

#[test]
fn cycle_without_roots_terminates() {
    // a pure cycle has no root, so the frontier starts empty
    let g = graph(&["a", "b"], &[&[1], &[0]]);
    assert!(cargo_downgrade::graph::get_dependencies(&g, None).is_empty());
    assert!(cargo_downgrade::graph::get_dependencies(&g, Some(3)).is_empty());
}

#[test]
fn deep_chain_aborts_at_traversal_bound() {
    // a 300-level chain: traversal stops after tier 255 and returns
    // what it has accumulated instead of walking on
    let n = 301usize;
    let names: Vec<String> = (0..n).map(|i| format!("n{}", i)).collect();
    let mut edges: Vec<Vec<usize>> = (0..n - 1).map(|i| vec![i + 1]).collect();
    edges.push(vec![]);
    let g = DepGraph { names, edges };
    let all = cargo_downgrade::graph::get_dependencies(&g, None);
    assert_eq!(all.len(), 255);
    assert!(all.contains(&"n1".to_string()));
    assert!(all.contains(&"n255".to_string()));
    assert!(!all.contains(&"n0".to_string()));
    assert!(!all.contains(&"n256".to_string()));
    let tier = cargo_downgrade::graph::get_dependencies(&g, Some(255));
    assert_eq!(tier, vec!["n255".to_string()]);
}
