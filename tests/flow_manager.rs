use spinhdl::{BuildStage, FlowGraph, FlowManager, FlowState, SubTask, Task, TaskStatus};

#[test]
fn task_status_transitions_clear_error() {
    let mut t = Task::new("main:synth");
    assert_eq!(t.status, TaskStatus::Planned);
    t.set_status(TaskStatus::Running);
    t.set_error("timing failed".to_string());
    assert_eq!(t.status, TaskStatus::Failed);
    assert_eq!(t.error.as_deref(), Some("timing failed"));
    t.set_status(TaskStatus::Planned);
    assert_eq!(t.error, None);
    assert_eq!(t.status, TaskStatus::Planned);
}

#[test]
fn subtasks_get_parent_and_status() {
    let mut t = Task::new("main:route");
    t.add_subtask(SubTask::new("rm_a"));
    t.add_subtask(SubTask::new("rm_b"));
    assert_eq!(t.subtasks[0].parent_id, "main:route");
    assert_eq!(t.subtasks[1].parent_id, "main:route");
    t.set_subtask_error("rm_b", "congestion".to_string());
    assert_eq!(t.subtasks[1].status, TaskStatus::Failed);
    assert_eq!(t.subtasks[1].error.as_deref(), Some("congestion"));
    t.set_subtask_status("rm_b", TaskStatus::Running);
    assert_eq!(t.subtasks[1].status, TaskStatus::Running);
    assert_eq!(t.subtasks[1].error, None);
    // unknown sub-step: nothing changes
    t.set_subtask_status("rm_c", TaskStatus::Succeeded);
    assert_eq!(t.subtasks.len(), 2);
    assert_eq!(t.subtasks[0].status, TaskStatus::Planned);
}

#[test]
fn upsert_replaces_or_appends() {
    let mut m = FlowManager::new();
    m.upsert_task(Task::new("a"));
    m.upsert_task(Task::new("b"));
    let mut a2 = Task::new("a");
    a2.set_status(TaskStatus::Succeeded);
    m.upsert_task(a2);
    assert_eq!(m.tasks().len(), 2);
    assert_eq!(m.tasks()[0].id, "a");
    assert_eq!(m.tasks()[0].status, TaskStatus::Succeeded);
    assert_eq!(m.tasks()[1].id, "b");
    assert!(m.task("c").is_none());
    assert_eq!(m.task("b").unwrap().status, TaskStatus::Planned);
}

#[test]
fn manager_status_and_error_by_id() {
    let mut m = FlowManager::new();
    m.upsert_task(Task::new("main:synth"));
    assert!(m.set_error("main:synth", "license".to_string()));
    assert_eq!(m.task("main:synth").unwrap().status, TaskStatus::Failed);
    assert!(m.set_status("main:synth", TaskStatus::Planned));
    assert_eq!(m.task("main:synth").unwrap().error, None);
    assert!(!m.set_status("main:route", TaskStatus::Running));
    if let Some(t) = m.task_mut("main:synth") {
        t.set_status(TaskStatus::Running);
    }
    assert_eq!(m.task("main:synth").unwrap().status, TaskStatus::Running);
    assert!(m.task_mut("nope").is_none());
}

fn chain_graph() -> FlowGraph {
    let mut g = FlowGraph::new();
    g.depend(("D", BuildStage::Synth), ("D", BuildStage::Route));
    g.depend(("D", BuildStage::Route), ("D", BuildStage::Bitgen));
    g.depend(("E", BuildStage::Synth), ("E", BuildStage::Route));
    g.depend(("E", BuildStage::Route), ("E", BuildStage::Bitgen));
    g
}

fn succeeded(id: &str) -> Task {
    let mut t = Task::new(id);
    t.set_status(TaskStatus::Succeeded);
    t
}

#[test]
fn revert_propagates_downstream_only() {
    let g = chain_graph();
    let mut m = FlowManager::new();
    for id in ["D:synth", "D:route", "D:bitgen", "E:synth", "E:route", "E:bitgen"] {
        m.upsert_task(succeeded(id));
    }
    m.revert(&g, "D", BuildStage::Synth);
    for id in ["D:synth", "D:route", "D:bitgen"] {
        assert_eq!(m.task(id).unwrap().status, TaskStatus::Stale, "{id}");
    }
    for id in ["E:synth", "E:route", "E:bitgen"] {
        assert_eq!(m.task(id).unwrap().status, TaskStatus::Succeeded, "{id}");
    }
}

#[test]
fn revert_middle_stage_keeps_upstream() {
    let g = chain_graph();
    let mut m = FlowManager::new();
    for id in ["D:synth", "D:route", "D:bitgen"] {
        m.upsert_task(succeeded(id));
    }
    m.set_error("D:bitgen", "bad".to_string());
    m.revert(&g, "D", BuildStage::Route);
    assert_eq!(m.task("D:synth").unwrap().status, TaskStatus::Succeeded);
    assert_eq!(m.task("D:route").unwrap().status, TaskStatus::Stale);
    assert_eq!(m.task("D:bitgen").unwrap().status, TaskStatus::Stale);
    assert_eq!(m.task("D:bitgen").unwrap().error, None);
}

#[test]
fn revert_of_stage_outside_graph_marks_only_itself() {
    let g = chain_graph();
    let mut m = FlowManager::new();
    m.upsert_task(succeeded("X:synth"));
    m.upsert_task(succeeded("D:synth"));
    m.revert(&g, "X", BuildStage::Synth);
    assert_eq!(m.task("X:synth").unwrap().status, TaskStatus::Stale);
    assert_eq!(m.task("D:synth").unwrap().status, TaskStatus::Succeeded);
}

#[test]
fn manager_from_snapshot() {
    let state = FlowState { tasks: vec![succeeded("a"), Task::new("b")] };
    let m = FlowManager::from_state(state);
    assert_eq!(m.tasks().len(), 2);
    assert_eq!(m.task("a").unwrap().status, TaskStatus::Succeeded);
}

#[test]
fn driver_reports_update_status() {
    let mut m = FlowManager::new();
    m.upsert_task(Task::new("main:synth"));
    assert_eq!(m.record_result("main:synth", Ok(())), Ok(()));
    assert_eq!(m.task("main:synth").unwrap().status, TaskStatus::Succeeded);
    assert_eq!(
        m.record_result("main:synth", Err("out of memory".to_string())),
        Err(spinhdl::BuildError::StageFailed("out of memory".to_string()))
    );
    let t = m.task("main:synth").unwrap();
    assert_eq!(t.status, TaskStatus::Failed);
    assert_eq!(t.error.as_deref(), Some("out of memory"));
    // an unknown stage is reported back but nothing is recorded
    assert!(m.record_result("x:route", Err("e".to_string())).is_err());
    assert_eq!(m.tasks().len(), 1);
}

#[test]
fn failed_prerequisite_blocks_downstream() {
    let g = chain_graph();
    let mut m = FlowManager::new();
    m.upsert_task(Task::new("D:synth"));
    // nothing upstream of synth
    assert!(m.may_start(&g, "D", BuildStage::Synth));
    // synth has not succeeded yet
    assert!(!m.may_start(&g, "D", BuildStage::Route));
    m.record_result("D:synth", Err("crash".to_string())).unwrap_err();
    assert!(!m.may_start(&g, "D", BuildStage::Route));
    m.set_status("D:synth", TaskStatus::Planned);
    m.record_result("D:synth", Ok(())).unwrap();
    assert!(m.may_start(&g, "D", BuildStage::Route));
    // no task for D:route yet
    assert!(!m.may_start(&g, "D", BuildStage::Bitgen));
    // a stage outside the graph depends on nothing
    assert!(m.may_start(&g, "Z", BuildStage::Synth));
}
