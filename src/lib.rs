//! Build-dependency and hierarchy engine for multi-stage hardware builds
//! with partial reconfiguration: the design/module hierarchy, the stage
//! graph of a build, and the tracker of stage status.

pub mod design_hier;
pub mod error;
pub mod flow_graph;
pub mod flow_manager;
pub mod planner;
pub mod topology;

pub use design_hier::{DesignEntry, EdgeKind, HierarchyGraph, ModuleEntry, NodeKind};
pub use error::BuildError;
pub use flow_graph::{BuildStage, DesignGroup, FlowEdge, FlowGraph, FlowNode, StageSummary};
pub use flow_manager::{FlowManager, FlowState, SubTask, Task, TaskStatus};
pub use planner::{
    parse_files_list, plan_flow, populate_files_list, resolve_pr_instance, route_units, Build,
    BuildCfg, DesignCfg, ModuleType, PrXdc, ProjectCfg, RootDesign, RouteUnit,
};
