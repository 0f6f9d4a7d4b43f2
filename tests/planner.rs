use spinhdl::{
    plan_flow, populate_files_list, resolve_pr_instance, route_units, Build, BuildCfg, BuildError,
    BuildStage, DesignCfg, DesignEntry, FlowGraph, HierarchyGraph, ModuleEntry, ModuleType,
    ProjectCfg, RootDesign,
};

fn design(name: &str, moduletype: ModuleType) -> DesignCfg {
    DesignCfg {
        name: name.to_string(),
        top: format!("{name}_top"),
        rtl_dir: "rtl/".to_string(),
        rtl: vec!["a.v".to_string(), "b.v".to_string()],
        xdc_dir: "xdc".to_string(),
        xdc: vec![],
        xci_dir: "ip//".to_string(),
        xci: vec!["clk.xci".to_string()],
        ip_dir: "".to_string(),
        ip: vec!["ps.tcl".to_string()],
        build: Build::Bitgen,
        moduletype,
        rtl_files: vec![],
        xdc_files: vec![],
        xci_files: vec![],
        ip_files: vec![],
        build_path: String::new(),
    }
}

fn manifest(root: Option<&str>, modules: Vec<ModuleEntry>) -> BuildCfg {
    BuildCfg {
        projectcfg: ProjectCfg {
            name: "proj".to_string(),
            version: "0.1".to_string(),
            part: "xczu3eg".to_string(),
            arch: "zynqmp".to_string(),
            part_xdc: "part.xdc".to_string(),
            build_dir: "build".to_string(),
        },
        designcfg: vec![
            design("main", ModuleType::Static),
            design("rm_a", ModuleType::Recon),
            design("rm_b", ModuleType::Recon),
        ],
        root: RootDesign { design: root.map(|s| s.to_string()) },
        hier: vec![DesignEntry { name: "main".to_string(), modules }],
        design_graph: HierarchyGraph::new(),
        flow_graph: FlowGraph::new(),
    }
}

fn slot0() -> ModuleEntry {
    ModuleEntry {
        name: "slot0".to_string(),
        region: Some("CLOCKREGION_X0Y0".to_string()),
        rm: vec!["rm_a".to_string(), "rm_b".to_string()],
    }
}

fn pos(order: &[String], key: &str) -> usize {
    order.iter().position(|k| k == key).unwrap()
}

#[test]
fn file_lists_join_directory_once() {
    let files = vec!["a.v".to_string(), "b.v".to_string()];
    assert_eq!(populate_files_list("rtl///", &files), vec!["rtl/a.v", "rtl/b.v"]);
    assert_eq!(populate_files_list("rtl", &files), vec!["rtl/a.v", "rtl/b.v"]);
    assert_eq!(populate_files_list("", &files), vec!["/a.v", "/b.v"]);
    assert!(populate_files_list("rtl", &vec![]).is_empty());
}

#[test]
fn populate_files_fills_all_lists() {
    let mut d = design("main", ModuleType::Static);
    d.populate_files();
    assert_eq!(d.rtl_files, vec!["rtl/a.v", "rtl/b.v"]);
    assert!(d.xdc_files.is_empty());
    assert_eq!(d.xci_files, vec!["ip/clk.xci"]);
    assert_eq!(d.ip_files, vec!["/ps.tcl"]);
    assert_eq!(d.rtl, vec!["a.v", "b.v"]);
}

#[test]
fn parse_hierarchy_builds_graph() {
    let mut cfg = manifest(Some("main"), vec![slot0()]);
    cfg.parse_hierarchy();
    let g = &cfg.design_graph;
    assert_eq!(g.nodes.len(), 4);
    let kids = g.get_child_nodes("main", true);
    assert_eq!(kids.len(), 1);
    assert_eq!(kids[0].key(), "M:slot0");
    let cands = g.get_child_nodes("slot0", false);
    assert_eq!(cands.iter().map(|n| n.key()).collect::<Vec<_>>(), vec!["D:rm_a", "D:rm_b"]);
}

#[test]
fn two_module_children_are_ambiguous() {
    let other = ModuleEntry { name: "slot1".to_string(), region: None, rm: vec![] };
    let mut cfg = manifest(Some("main"), vec![slot0(), other]);
    cfg.parse_hierarchy();
    assert_eq!(
        cfg.resolve_pr_instance("main"),
        Err(BuildError::AmbiguousOrMissingPrRegion("main".to_string()))
    );
    assert_eq!(
        route_units(&cfg.design_graph, "main"),
        Err(BuildError::AmbiguousOrMissingPrRegion("main".to_string()))
    );
}

#[test]
fn no_module_child_is_missing_region() {
    let mut cfg = manifest(Some("main"), vec![]);
    cfg.parse_hierarchy();
    assert_eq!(
        resolve_pr_instance(&cfg.design_graph, "main"),
        Err(BuildError::AmbiguousOrMissingPrRegion("main".to_string()))
    );
    assert_eq!(
        resolve_pr_instance(&cfg.design_graph, "absent"),
        Err(BuildError::AmbiguousOrMissingPrRegion("absent".to_string()))
    );
}

#[test]
fn single_instance_resolves_and_locks_first_candidate() {
    let mut cfg = manifest(Some("main"), vec![slot0()]);
    cfg.parse_hierarchy();
    let p = cfg.resolve_pr_instance("main").unwrap();
    assert_eq!(p.project_name, "main");
    assert_eq!(p.instance_name, "slot0");
    assert_eq!(p.region, "CLOCKREGION_X0Y0");
    let units = route_units(&cfg.design_graph, "main").unwrap();
    assert_eq!(units.len(), 2);
    assert_eq!(units[0].design, "rm_a");
    assert!(units[0].lock_routing);
    assert_eq!(units[1].design, "rm_b");
    assert!(!units[1].lock_routing);
}

#[test]
fn missing_region_resolves_to_empty() {
    let m = ModuleEntry { name: "slot0".to_string(), region: None, rm: vec!["rm_a".to_string()] };
    let mut cfg = manifest(Some("main"), vec![m]);
    cfg.parse_hierarchy();
    assert_eq!(cfg.resolve_pr_instance("main").unwrap().region, "");
}

#[test]
fn bitstream_scripts_per_candidate() {
    let mut cfg = manifest(Some("main"), vec![slot0()]);
    cfg.parse_hierarchy();
    assert_eq!(
        cfg.gen_bitstreams(&"main".to_string()).unwrap(),
        vec!["generate_bit_rm_a.tcl", "generate_bit_rm_b.tcl"]
    );
}

#[test]
fn static_designs_in_order() {
    let cfg = manifest(None, vec![]);
    assert_eq!(cfg.static_designs(), vec!["main"]);
}

#[test]
fn end_to_end_flow_graph() {
    let mut cfg = manifest(Some("main"), vec![slot0()]);
    cfg.build_flow_graph().unwrap();
    let fg = &cfg.flow_graph;
    let mut keys: Vec<String> = fg.nodes.iter().map(|n| n.key.clone()).collect();
    keys.sort();
    let mut expected = vec![
        "main:verifyfiles",
        "main:createproject",
        "main:synth",
        "rm_a:route",
        "rm_a:bitgen",
        "rm_b:route",
        "rm_b:bitgen",
    ];
    expected.sort();
    assert_eq!(keys, expected);
    let synth = fg.find(&"main:synth".to_string()).unwrap();
    let succ = fg.successors(synth);
    assert!(succ.contains(&"rm_a:route".to_string()));
    assert!(succ.contains(&"rm_b:route".to_string()));
    let order = fg.topo_order().unwrap();
    assert!(pos(&order, "main:synth") < pos(&order, "rm_a:route"));
    assert!(pos(&order, "main:synth") < pos(&order, "rm_b:route"));
    assert!(pos(&order, "main:verifyfiles") < pos(&order, "main:createproject"));
    assert!(pos(&order, "rm_a:route") < pos(&order, "rm_a:bitgen"));
}

#[test]
fn flow_graph_without_root_has_only_static_chains() {
    let mut cfg = manifest(None, vec![slot0()]);
    cfg.build_flow_graph().unwrap();
    assert_eq!(cfg.flow_graph.nodes.len(), 3);
    assert_eq!(
        cfg.flow_graph.topo_order().unwrap(),
        vec!["main:verifyfiles", "main:createproject", "main:synth"]
    );
}

#[test]
fn flow_graph_with_ambiguous_root_fails() {
    let other = ModuleEntry { name: "slot1".to_string(), region: None, rm: vec![] };
    let mut cfg = manifest(Some("main"), vec![slot0(), other]);
    assert_eq!(
        cfg.build_flow_graph(),
        Err(BuildError::AmbiguousOrMissingPrRegion("main".to_string()))
    );
}

#[test]
fn plan_flow_on_plain_inputs() {
    let mut h = HierarchyGraph::new();
    h.add_design("top");
    h.add_module("pb", None);
    h.add_design("c1");
    h.connect_design_to_module("top", "pb").unwrap();
    h.connect_module_to_design_impl("pb", "c1").unwrap();
    let g = plan_flow(&h, &vec![], Some("top")).unwrap();
    assert_eq!(g.topo_order().unwrap(), vec!["top:synth", "c1:route", "c1:bitgen"]);
    let g2 = plan_flow(&h, &vec!["top".to_string()], None).unwrap();
    assert_eq!(g2.get_artifacts("top", BuildStage::Synth).map(|a| a.len()), Some(0));
}

#[test]
fn error_messages_name_the_entity() {
    assert_eq!(
        BuildError::MissingNode("D:top".to_string()).message(),
        "missing hierarchy node D:top"
    );
    assert!(BuildError::CycleDetected("a:synth".to_string()).message().ends_with("a:synth"));
    assert!(BuildError::StageFailed("boom".to_string()).message().ends_with("boom"));
    assert!(BuildError::PersistenceError("disk".to_string()).message().ends_with("disk"));
    assert!(BuildError::AmbiguousOrMissingPrRegion("top".to_string()).message().ends_with("top"));
}

#[test]
fn files_list_is_split_trimmed_and_filtered() {
    assert_eq!(spinhdl::parse_files_list(" a.v , ,b.v,\tc.sv "), vec!["a.v", "b.v", "c.sv"]);
    assert!(spinhdl::parse_files_list("").is_empty());
    assert!(spinhdl::parse_files_list(" , ,").is_empty());
    assert_eq!(spinhdl::parse_files_list("top.v"), vec!["top.v"]);
}

#[test]
fn comma_split_keeps_empty_pieces() {
    assert_eq!(spinhdl::planner::split_commas("a,,b,"), vec!["a", "", "b", ""]);
    assert_eq!(spinhdl::planner::split_commas(""), vec![""]);
    let pieces = vec!["x".to_string(), String::new(), "y".to_string()];
    assert_eq!(spinhdl::planner::keep_nonempty(&pieces), vec!["x", "y"]);
}

#[test]
fn trailing_slashes_are_trimmed() {
    assert_eq!(spinhdl::planner::trim_trailing_slashes("a/b//"), "a/b");
    assert_eq!(spinhdl::planner::trim_trailing_slashes("/"), "");
    assert_eq!(spinhdl::planner::trim_trailing_slashes("a"), "a");
}

#[test]
fn parse_hierarchy_registers_in_manifest_order() {
    let mut cfg = manifest(Some("main"), vec![slot0()]);
    cfg.hier.push(DesignEntry {
        name: "alt".to_string(),
        modules: vec![ModuleEntry {
            name: "slot0".to_string(),
            region: Some("CLOCKREGION_X1Y1".to_string()),
            rm: vec!["rm_c".to_string()],
        }],
    });
    cfg.parse_hierarchy();
    let g = &cfg.design_graph;
    let keys: Vec<String> = g.nodes.iter().map(|n| n.key()).collect();
    assert_eq!(keys, vec!["D:main", "M:slot0", "D:alt", "D:rm_a", "D:rm_b", "D:rm_c"]);
    match g.node(1).unwrap() {
        spinhdl::NodeKind::Module { region, .. } => {
            assert_eq!(region.as_deref(), Some("CLOCKREGION_X0Y0"))
        }
        other => panic!("unexpected node {:?}", other),
    }
    assert_eq!(
        g.edge_kinds,
        vec![
            spinhdl::EdgeKind::Instance,
            spinhdl::EdgeKind::Instance,
            spinhdl::EdgeKind::Implement,
            spinhdl::EdgeKind::Implement,
            spinhdl::EdgeKind::Implement,
        ]
    );
    let cands: Vec<String> = g.get_child_nodes("slot0", false).iter().map(|n| n.key()).collect();
    assert_eq!(cands, vec!["D:rm_a", "D:rm_b", "D:rm_c"]);
    let parents: Vec<String> = g.get_parent_nodes("slot0", false).iter().map(|n| n.key()).collect();
    assert_eq!(parents, vec!["D:main", "D:alt"]);
}
