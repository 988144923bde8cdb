use chaz::executor::{ToolError, Transcript};
use chaz::flow::{FlowSpec, OutputMode};
use chaz::json::Json;
use chaz::workflow::{
    present, spawn_arguments, ApprovalRequirement, RiskLevel, ToolStep, WorkflowTool,
};
use std::sync::Arc;

struct NoopDelegate;

fn workflow_tool() -> WorkflowTool<NoopDelegate> {
    WorkflowTool { delegate: Arc::new(NoopDelegate) }
}

fn json(text: &str) -> Json {
    Json::parse(text).expect("test input is JSON")
}

#[test]
fn resolve_flow_single_mode() {
    let flow =
        WorkflowTool::<NoopDelegate>::resolve_flow(&json(r#"{"agent":"researcher","task":"look it up"}"#)).unwrap();
    assert_eq!(flow.get("kind").unwrap(), &Json::text("spawn"));
    assert_eq!(flow.get("agent").unwrap(), &Json::text("researcher"));
    assert_eq!(flow.get("task").unwrap(), &Json::text("look it up"));
}

#[test]
fn resolve_flow_parallel_tasks_wrap_into_fork() {
    let args = json(
        r#"{"tasks":[
            {"agent":"researcher","task":"a"},
            {"agent":"scout","task":"b","output":"json"}],
            "concurrency":3}"#,
    );
    let flow = WorkflowTool::<NoopDelegate>::resolve_flow(&args).unwrap();
    assert_eq!(flow.get("kind").unwrap(), &Json::text("fork"));
    assert_eq!(flow.get("concurrency").unwrap().as_u64(), Some(3));
    let branches = flow.get("branches").unwrap();
    assert_eq!(
        branches.get("task-0").unwrap().get("agent").unwrap(),
        &Json::text("researcher")
    );
    assert_eq!(branches.get("task-1").unwrap().get("output").unwrap(), &Json::text("json"));
}

#[test]
fn resolve_flow_named_flow_rejected() {
    let err = WorkflowTool::<NoopDelegate>::resolve_flow(&json(r#"{"flow":"research-pipeline"}"#)).unwrap_err();
    assert!(err.contains("Phase 2"), "got: {err}");
    assert_eq!(
        err,
        "named flows (flow: \"<name>\") are a Phase 2 feature; pass an inline flow object."
    );
}

#[test]
fn resolve_flow_missing_args_errors() {
    assert!(WorkflowTool::<NoopDelegate>::resolve_flow(&json(r#"{"agent":"researcher"}"#)).is_err());
    assert_eq!(
        WorkflowTool::<NoopDelegate>::resolve_flow(&json("[]")).unwrap_err(),
        "Either 'flow', 'tasks', or both 'agent' and 'task' are required."
    );
}

#[test]
fn descriptor_is_named_workflow_with_object_params() {
    let tool = workflow_tool();
    let d = tool.descriptor();
    assert_eq!(d.name, "workflow");
    assert_eq!(d.parameters.get("type").unwrap(), &Json::text("object"));
    assert!(matches!(tool.default_policy().risk, RiskLevel::Medium));
    assert_eq!(tool.default_policy().approval, ApprovalRequirement::UnlessAutoApproved);
    assert_eq!(tool.default_policy().timeout, 600);
}

#[test]
fn the_schema_names_all_arguments() {
    let d = workflow_tool().descriptor();
    let properties = d.parameters.get("properties").unwrap();
    for name in ["agent", "task", "tasks", "flow", "concurrency", "output"] {
        assert!(properties.get(name).unwrap().get("description").is_some(), "{name}");
    }
    assert_eq!(
        properties.get("tasks").unwrap().get("items").unwrap(),
        &json(
            r#"{"type":"object","required":["agent","task"],"properties":{
                "agent":{"type":"string","description":"Agent name."},
                "task":{"type":"string","description":"Task description."},
                "output":{"type":"string","enum":["text","json"],"description":"Output typing."}}}"#
        )
    );
    assert!(d.description.starts_with("Delegate work to other agents on this Peer"));
    assert!(d.description.contains("{flow: {kind: \"sequence\"|\"fork\"|\"join\", ...}}"));
}

#[test]
fn task_lists_must_be_complete() {
    assert_eq!(
        WorkflowTool::<NoopDelegate>::resolve_flow(&json(r#"{"tasks":[]}"#)).unwrap_err(),
        "'tasks' was empty — provide at least one {agent, task}."
    );
    assert_eq!(
        WorkflowTool::<NoopDelegate>::resolve_flow(&json(r#"{"tasks":[{"agent":"a","task":"t"},{"agent":"b"}]}"#))
            .unwrap_err(),
        "tasks[1] needs both 'agent' and 'task'."
    );
    let flow = WorkflowTool::<NoopDelegate>::resolve_flow(&json(r#"{"tasks":7,"agent":"a","task":"t"}"#)).unwrap();
    assert_eq!(flow, json(r#"{"kind":"spawn","agent":"a","task":"t"}"#));
}

#[test]
fn every_task_becomes_a_branch_of_its_own() {
    let items: Vec<String> =
        (0..12).map(|i| format!(r#"{{"agent":"a{i}","task":"t{i}"}}"#)).collect();
    let args = json(&format!(r#"{{"tasks":[{}]}}"#, items.join(",")));
    let FlowSpec::Fork(fork) = workflow_tool().prepare(&args).unwrap() else {
        panic!("expected fork")
    };
    assert_eq!(fork.id, "tasks");
    assert_eq!(fork.branches.len(), 12);
    assert_eq!(fork.branches.key_at(2), "task-10");
    for i in 0..12 {
        let FlowSpec::Spawn(s) = fork.branches.get(&format!("task-{i}")).unwrap() else {
            panic!("expected spawn")
        };
        assert_eq!(s.agent, format!("a{i}"));
        assert_eq!(s.task, format!("t{i}"));
    }
}

#[test]
fn a_call_of_the_tool_runs_to_its_answer() {
    let tool = workflow_tool();
    let args = json(r#"{"tasks":[{"agent":"a","task":"x"},{"agent":"b","task":"y"}]}"#);
    let mut log = Transcript::new();
    let ToolStep::Pending(calls) = tool.execute(&args, &log) else {
        panic!("expected calls")
    };
    assert_eq!(calls.len(), 2);
    for call in calls {
        log.record(call.site, Ok(format!("{} did {}", call.agent, call.task)));
    }
    assert_eq!(
        tool.execute(&args, &log),
        ToolStep::Finished(Ok(
            "{\n  \"branches\": {\n    \"task-0\": \"a did x\",\n    \"task-1\": \"b did y\"\n  },\n  \"errors\": {}\n}"
                .to_string()
        ))
    );
}

#[test]
fn bad_arguments_are_answered_at_once() {
    let tool = workflow_tool();
    let log = Transcript::new();
    assert_eq!(
        tool.execute(&json(r#"{"flow":"named"}"#), &log),
        ToolStep::Finished(Err(ToolError::InvalidArgument(
            "named flows (flow: \"<name>\") are a Phase 2 feature; pass an inline flow object."
                .to_string()
        )))
    );
    assert_eq!(
        tool.execute(&json(r#"{"flow":{"kind":"sequence"}}"#), &log),
        ToolStep::Finished(Err(ToolError::InvalidArgument(
            "flow.steps must be an array.".to_string()
        )))
    );
}

#[test]
fn answers_are_text_or_indented_json() {
    assert_eq!(present(Json::text("plain")), "plain");
    assert_eq!(present(json("[1]")), "[\n  1\n]");
    assert_eq!(present(Json::Null), "null");
}

#[test]
fn agents_are_called_with_reference_and_task() {
    assert_eq!(spawn_arguments("scout", "look"), json(r#"{"agent_ref":"scout","task":"look"}"#));
}

#[test]
fn one_task_runs_with_the_output_mode_that_is_asked_for() {
    for (output, wanted) in [
        (r#""json""#, Some(OutputMode::Json)),
        (r#"{"text":null}"#, Some(OutputMode::Text)),
        ("null", None),
    ] {
        let args = json(&format!(r#"{{"agent":"a","task":"t","output":{output}}}"#));
        let FlowSpec::Spawn(spawn) = workflow_tool().prepare(&args).unwrap() else {
            panic!("expected spawn")
        };
        assert_eq!(spawn.agent, "a");
        assert_eq!(spawn.task, "t");
        assert_eq!(spawn.output, wanted);
    }
}

#[test]
fn a_cap_that_is_no_count_is_no_cap() {
    for (cap, wanted) in [("2", Some(2)), (r#""many""#, None), ("null", None), ("-1", None)] {
        let args = json(&format!(
            r#"{{"tasks":[{{"agent":"a","task":"t","output":{{"json":{{}}}}}}],"concurrency":{cap}}}"#
        ));
        let FlowSpec::Fork(fork) = workflow_tool().prepare(&args).unwrap() else {
            panic!("expected fork")
        };
        assert_eq!(fork.concurrency, wanted);
        let Some(FlowSpec::Spawn(spawn)) = fork.branches.get("task-0") else {
            panic!("expected spawn")
        };
        assert_eq!(spawn.output, Some(OutputMode::Json));
    }
}
