use spinhdl::{BuildError, BuildStage, FlowGraph};

fn pos(order: &[String], key: &str) -> usize {
    order.iter().position(|k| k == key).unwrap()
}

#[test]
fn stage_names_round_trip() {
    for s in [
        BuildStage::VerifyFiles,
        BuildStage::CreateProject,
        BuildStage::Synth,
        BuildStage::Route,
        BuildStage::Bitgen,
    ] {
        assert_eq!(BuildStage::from_str(s.as_str()), Some(s));
    }
    assert_eq!(BuildStage::VerifyFiles.as_str(), "verifyfiles");
    assert_eq!(BuildStage::CreateProject.as_str(), "createproject");
}

#[test]
fn stage_parse_ignores_case_and_accepts_underscores() {
    assert_eq!(BuildStage::from_str("SYNTH"), Some(BuildStage::Synth));
    assert_eq!(BuildStage::from_str("Verify_Files"), Some(BuildStage::VerifyFiles));
    assert_eq!(BuildStage::from_str("create_project"), Some(BuildStage::CreateProject));
    assert_eq!(BuildStage::from_str("BitGen"), Some(BuildStage::Bitgen));
    assert_eq!(BuildStage::from_str("place"), None);
    assert_eq!(BuildStage::from_lowercase("ROUTE"), None);
    assert_eq!(BuildStage::from_lowercase("route"), Some(BuildStage::Route));
}

#[test]
fn flow_key_format() {
    assert_eq!(FlowGraph::key("main", BuildStage::Synth), "main:synth");
    assert_eq!(FlowGraph::key("rm_a", BuildStage::VerifyFiles), "rm_a:verifyfiles");
}

#[test]
fn ensure_node_is_idempotent() {
    let mut g = FlowGraph::new();
    let a = g.ensure_node("main", BuildStage::Synth);
    let b = g.ensure_node("main", BuildStage::Synth);
    let c = g.ensure_node("main", BuildStage::Route);
    assert_eq!(a, b);
    assert_ne!(a, c);
    assert_eq!(g.nodes.len(), 2);
    assert_eq!(g.nodes[a].key, "main:synth");
    assert_eq!(g.nodes[a].design, "main");
    assert_eq!(g.nodes[a].stage, BuildStage::Synth);
}

#[test]
fn topo_order_respects_every_dependency() {
    let mut g = FlowGraph::new();
    let deps = [
        (("d", BuildStage::Synth), ("d", BuildStage::Route)),
        (("d", BuildStage::Route), ("d", BuildStage::Bitgen)),
        (("d", BuildStage::VerifyFiles), ("d", BuildStage::CreateProject)),
        (("d", BuildStage::CreateProject), ("d", BuildStage::Synth)),
        (("e", BuildStage::Synth), ("d", BuildStage::Route)),
    ];
    for (b, a) in deps {
        g.depend(b, a);
    }
    let order = g.topo_order().unwrap();
    assert_eq!(order.len(), 6);
    let mut sorted = order.clone();
    sorted.sort();
    sorted.dedup();
    assert_eq!(sorted.len(), 6);
    for (b, a) in deps {
        let kb = FlowGraph::key(b.0, b.1);
        let ka = FlowGraph::key(a.0, a.1);
        assert!(pos(&order, &kb) < pos(&order, &ka));
    }
}

#[test]
fn topo_order_is_deterministic() {
    let build = || {
        let mut g = FlowGraph::new();
        g.depend(("a", BuildStage::Synth), ("b", BuildStage::Route));
        g.depend(("a", BuildStage::Synth), ("c", BuildStage::Route));
        g.depend(("b", BuildStage::Route), ("b", BuildStage::Bitgen));
        g
    };
    assert_eq!(build().topo_order().unwrap(), build().topo_order().unwrap());
}

#[test]
fn mutual_dependency_is_cycle_detected() {
    let mut g = FlowGraph::new();
    g.depend(("D", BuildStage::Synth), ("D", BuildStage::Route));
    g.depend(("D", BuildStage::Route), ("D", BuildStage::Synth));
    match g.topo_order() {
        Err(BuildError::CycleDetected(k)) => assert!(k == "D:synth" || k == "D:route"),
        other => panic!("expected a cycle, got {:?}", other),
    }
}

#[test]
fn self_dependency_is_cycle_detected() {
    let mut g = FlowGraph::new();
    g.depend(("D", BuildStage::Bitgen), ("D", BuildStage::Bitgen));
    assert_eq!(g.topo_order(), Err(BuildError::CycleDetected("D:bitgen".to_string())));
}

#[test]
fn empty_graph_has_empty_order() {
    let g = FlowGraph::new();
    assert_eq!(g.topo_order(), Ok(vec![]));
    assert!(g.all_artifacts().is_empty());
}

#[test]
fn artifacts_are_recorded_per_node() {
    let mut g = FlowGraph::new();
    g.depend(("main", BuildStage::Synth), ("rm_a", BuildStage::Route));
    g.add_artifact("main", BuildStage::Synth, "main.dcp");
    g.add_artifact("rm_a", BuildStage::Route, "rm_a_routed.dcp");
    g.add_artifact("main", BuildStage::Synth, "main.log");
    // absent node: nothing happens
    g.add_artifact("ghost", BuildStage::Bitgen, "x.bit");
    assert_eq!(
        g.get_artifacts("main", BuildStage::Synth).unwrap(),
        &["main.dcp".to_string(), "main.log".to_string()]
    );
    assert_eq!(g.get_artifacts("ghost", BuildStage::Bitgen), None);
    assert!(g.get_artifacts("rm_a", BuildStage::Route).is_some());
    assert_eq!(g.all_artifacts(), vec!["main.dcp", "main.log", "rm_a_routed.dcp"]);
    assert_eq!(g.nodes.len(), 2);
}

#[test]
fn successors_and_reachability() {
    let mut g = FlowGraph::new();
    g.depend(("d", BuildStage::Synth), ("d", BuildStage::Route));
    g.depend(("d", BuildStage::Synth), ("e", BuildStage::Route));
    g.depend(("d", BuildStage::Route), ("d", BuildStage::Bitgen));
    g.ensure_node("x", BuildStage::Synth);
    let s = g.find(&"d:synth".to_string()).unwrap();
    assert_eq!(g.successors(s), vec!["d:route", "e:route"]);
    let marks = g.downstream_of(s);
    let reached: Vec<&str> = (0..marks.len())
        .filter(|&i| marks[i])
        .map(|i| g.nodes[i].key.as_str())
        .collect();
    assert_eq!(reached, vec!["d:synth", "d:route", "e:route", "d:bitgen"]);
}

#[test]
fn render_graph_groups_by_design() {
    let mut g = FlowGraph::new();
    g.depend(("main", BuildStage::VerifyFiles), ("main", BuildStage::CreateProject));
    g.depend(("main", BuildStage::Synth), ("rm_a", BuildStage::Route));
    g.depend(("rm_a", BuildStage::Route), ("rm_a", BuildStage::Bitgen));
    g.depend(("main", BuildStage::CreateProject), ("main", BuildStage::Synth));
    let groups = g.render_graph();
    assert_eq!(groups.len(), 2);
    assert_eq!(groups[0].design, "main");
    let keys: Vec<&str> = groups[0].stages.iter().map(|s| s.key.as_str()).collect();
    assert_eq!(keys, vec!["main:verifyfiles", "main:createproject", "main:synth"]);
    assert_eq!(groups[0].stages[1].successors, vec!["main:synth"]);
    assert_eq!(groups[0].stages[2].successors, vec!["rm_a:route"]);
    assert_eq!(groups[1].design, "rm_a");
    assert_eq!(groups[1].stages[0].successors, vec!["rm_a:bitgen"]);
    assert!(groups[1].stages[1].successors.is_empty());
    assert!(FlowGraph::new().render_graph().is_empty());
}

#[test]
fn predecessors_in_insertion_order() {
    let mut g = FlowGraph::new();
    g.depend(("a", BuildStage::Synth), ("c", BuildStage::Route));
    g.depend(("b", BuildStage::Synth), ("c", BuildStage::Route));
    let c = g.find(&"c:route".to_string()).unwrap();
    assert_eq!(g.predecessors(c), vec!["a:synth", "b:synth"]);
    let a = g.find(&"a:synth".to_string()).unwrap();
    assert!(g.predecessors(a).is_empty());
}
