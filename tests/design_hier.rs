use spinhdl::{BuildError, EdgeKind, HierarchyGraph, NodeKind};

#[test]
fn test_key_design() {
    let test_str = "teststr";
    let ret = HierarchyGraph::key_design(test_str);
    assert_eq!(ret, "D:teststr");
}

#[test]
fn test_key_module() {
    let test_str = "teststr";
    let ret = HierarchyGraph::key_module(test_str);
    assert_eq!(ret, "M:teststr");
}

#[test]
fn test_add_design() {
    let mut graph = HierarchyGraph::new();

    let idx1 = graph.add_design("top");

    let key = HierarchyGraph::key_design("top");
    assert!(graph.contains_key(&key));

    let node = graph.node(idx1).unwrap();
    match node {
        NodeKind::Design { name } => assert_eq!(name, "top"),
        _ => panic!("Expected NodeKind::Design, got {:?}", node),
    }

    let idx2 = graph.add_design("top");
    assert_eq!(idx1, idx2, "Repeated add_design() must return same index");
}

#[test]
fn test_add_module() {
    let mut graph = HierarchyGraph::new();
    let clk_reg = "CLOCKREGION_X0Y0";

    let idx1 = graph.add_module("top", Some(clk_reg));

    let key = HierarchyGraph::key_module("top");
    assert!(graph.contains_key(&key));

    let node = graph.node(idx1).unwrap();
    match node {
        NodeKind::Module { name, region } => {
            assert_eq!(name, "top");
            assert_eq!(region.as_deref(), Some(clk_reg));
        }
        _ => panic!("Expected NodeKind::Module, got {:?}", node),
    }

    // check with same region
    let idx2 = graph.add_module("top", Some(clk_reg));
    assert_eq!(idx1, idx2, "Repeated add_design() must return same index");

    let clk_reg2 = "CLOCKREGION_X0Y1";

    // check with a different region
    let idx3 = graph.add_module("top", Some(clk_reg2));
    assert_eq!(idx1, idx3, "Repeated add_design() must return same index");

    // once a node is added its fields do not change
    let node = graph.node(idx1).unwrap();
    match node {
        NodeKind::Module { name, region } => {
            assert_eq!(name, "top");
            assert_ne!(region.as_deref(), Some(clk_reg2));
        }
        _ => panic!("Expected NodeKind::Module, got {:?}", node),
    }
}

#[test]
fn design_and_module_keys_do_not_collide() {
    let mut graph = HierarchyGraph::new();
    let d = graph.add_design("x");
    let m = graph.add_module("x", None);
    assert_ne!(d, m);
    assert!(graph.contains_key("D:x"));
    assert!(graph.contains_key("M:x"));
    assert!(!graph.contains_key("x"));
    assert_eq!(graph.nodes.len(), 2);
}

#[test]
fn repeated_module_keeps_first_region_even_from_none() {
    let mut graph = HierarchyGraph::new();
    let a = graph.add_module("slot", None);
    let b = graph.add_module("slot", Some("CLOCKREGION_X1Y1"));
    assert_eq!(a, b);
    match graph.node(a).unwrap() {
        NodeKind::Module { region, .. } => assert_eq!(region, &None),
        other => panic!("unexpected node {:?}", other),
    }
}

#[test]
fn connect_reports_missing_design_first() {
    let mut graph = HierarchyGraph::new();
    let r = graph.connect_design_to_module("top", "slot");
    assert_eq!(r, Err(BuildError::MissingNode("D:top".to_string())));
    graph.add_design("top");
    let r = graph.connect_design_to_module("top", "slot");
    assert_eq!(r, Err(BuildError::MissingNode("M:slot".to_string())));
    assert!(graph.edge_kinds.is_empty());
}

#[test]
fn connect_implementation_reports_missing_nodes() {
    let mut graph = HierarchyGraph::new();
    assert_eq!(
        graph.connect_module_to_design_impl("slot", "rm_a"),
        Err(BuildError::MissingNode("M:slot".to_string()))
    );
    graph.add_module("slot", None);
    assert_eq!(
        graph.connect_module_to_design_impl("slot", "rm_a"),
        Err(BuildError::MissingNode("D:rm_a".to_string()))
    );
}

#[test]
fn children_and_parents_in_insertion_order() {
    let mut graph = HierarchyGraph::new();
    graph.add_design("top");
    graph.add_module("slot", Some("CLOCKREGION_X0Y0"));
    graph.add_design("rm_a");
    graph.add_design("rm_b");
    graph.connect_design_to_module("top", "slot").unwrap();
    graph.connect_module_to_design_impl("slot", "rm_a").unwrap();
    graph.connect_module_to_design_impl("slot", "rm_b").unwrap();
    assert_eq!(graph.edge_kinds, vec![EdgeKind::Instance, EdgeKind::Implement, EdgeKind::Implement]);

    let kids = graph.get_child_nodes("top", true);
    assert_eq!(kids.len(), 1);
    assert_eq!(kids[0].name(), "slot");
    assert!(!kids[0].is_design());

    let cands = graph.get_child_nodes("slot", false);
    let names: Vec<&str> = cands.iter().map(|n| n.name().as_str()).collect();
    assert_eq!(names, vec!["rm_a", "rm_b"]);

    let parents = graph.get_parent_nodes("rm_b", true);
    assert_eq!(parents.len(), 1);
    assert_eq!(parents[0].name(), "slot");

    let up = graph.get_parent_nodes("slot", false);
    assert_eq!(up.len(), 1);
    assert_eq!(up[0].key(), "D:top");
}

#[test]
fn children_of_absent_node_is_empty() {
    let graph = HierarchyGraph::new();
    assert!(graph.get_child_nodes("nothing", true).is_empty());
    assert!(graph.get_parent_nodes("nothing", false).is_empty());
    assert_eq!(graph.find("nothing", true), None);
}
