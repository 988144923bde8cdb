use chaz::executor::{
    apply_previous, check_join, chosen_reading, execute_flow, fenced, output_to_text,
    parse_json_text, read_reply, reducer_task, Call, Step, ToolError, Transcript,
};
use chaz::flow::{FlowSpec, OutputMode};
use chaz::json::Json;
use chaz::parse::parse_flow;

/// Replies by agent; an agent without one echoes its task.
struct Script {
    replies: Vec<(&'static str, Result<&'static str, &'static str>)>,
    calls: Vec<(String, String)>,
    most_at_once: usize,
}

impl Script {
    fn new(replies: Vec<(&'static str, Result<&'static str, &'static str>)>) -> Script {
        Script { replies, calls: Vec::new(), most_at_once: 0 }
    }

    fn reply(&mut self, call: &Call) -> Result<String, ToolError> {
        self.calls.push((call.agent.clone(), call.task.clone()));
        for (agent, reply) in &self.replies {
            if *agent == call.agent {
                return match reply {
                    Ok(text) => Ok(text.to_string()),
                    Err(message) => Err(ToolError::Execution(message.to_string())),
                };
            }
        }
        Ok(format!("done: {}", call.task))
    }

    /// Answer one call at a time: the last one asked for.
    fn run(&mut self, flow: &FlowSpec) -> Result<Json, ToolError> {
        let mut log = Transcript::new();
        loop {
            match execute_flow(flow, &log) {
                Step::Finished(outcome) => return outcome,
                Step::Pending(calls) => {
                    assert!(!calls.is_empty());
                    self.most_at_once = self.most_at_once.max(calls.len());
                    let call = &calls[calls.len() - 1];
                    let reply = self.reply(call);
                    assert!(log.record(call.site.clone(), reply));
                }
            }
        }
    }
}

fn json(text: &str) -> Json {
    Json::parse(text).expect("test input is JSON")
}

fn flow(text: &str) -> FlowSpec {
    parse_flow(&json(text)).expect("test input is a flow")
}

fn pending(step: Step) -> Vec<Call> {
    match step {
        Step::Pending(calls) => calls,
        Step::Finished(_) => panic!("expected pending calls"),
    }
}

#[test]
fn single_delegation_runs_one_spawn() {
    let mut script = Script::new(vec![("researcher", Ok("the answer"))]);
    let out = script.run(&flow(r#"{"agent":"researcher","task":"look it up"}"#)).unwrap();
    assert_eq!(out, Json::text("the answer"));
    assert_eq!(script.calls, vec![("researcher".to_string(), "look it up".to_string())]);
}

#[test]
fn sequence_threads_previous_into_next_task() {
    let mut script = Script::new(vec![("a", Ok("first-output")), ("b", Ok("second-output"))]);
    let out = script
        .run(&flow(
            r#"{"kind":"sequence","steps":[
                {"agent":"a","task":"step one"},
                {"agent":"b","task":"use {previous}"}]}"#,
        ))
        .unwrap();
    assert_eq!(out, Json::text("second-output"));
    assert_eq!(script.calls[1], ("b".to_string(), "use first-output".to_string()));
}

#[test]
fn parallel_tasks_fork_collects_all_branches() {
    let mut script = Script::new(vec![]);
    let out = script
        .run(&flow(
            r#"{"kind":"fork","id":"tasks","concurrency":2,"branches":{
                "task-0":{"agent":"researcher","task":"topic a"},
                "task-1":{"agent":"researcher","task":"topic b"}}}"#,
        ))
        .unwrap();
    let branches = out.get("branches").unwrap();
    assert_eq!(branches.get("task-0").unwrap(), &Json::text("done: topic a"));
    assert_eq!(branches.get("task-1").unwrap(), &Json::text("done: topic b"));
    assert_eq!(out.get("errors").unwrap(), &json("{}"));
    assert_eq!(script.calls.len(), 2);
}

#[test]
fn fork_join_with_reducer_consolidates() {
    let mut script =
        Script::new(vec![("researcher", Ok("finding")), ("consolidator", Ok("merged report"))]);
    let out = script
        .run(&flow(
            r#"{"kind":"sequence","steps":[
                {"kind":"fork","id":"research","branches":{
                    "a":{"agent":"researcher","task":"topic a"},
                    "b":{"agent":"researcher","task":"topic b"}}},
                {"kind":"join","from":"research","mode":"all",
                    "reducer":{"kind":"agent","agent":"consolidator","task":"merge these"}}]}"#,
        ))
        .unwrap();
    assert_eq!(out, Json::text("merged report"));
    let (agent, task) = script.calls.last().unwrap();
    assert_eq!(agent, "consolidator");
    assert!(task.contains("finding"), "reducer task should carry branch results: {task}");
    assert_eq!(
        task,
        "merge these\n\nCollected branch results (JSON):\n```json\n{\n  \"branches\": {\n    \"a\": \"finding\",\n    \"b\": \"finding\"\n  },\n  \"errors\": {}\n}\n```"
    );
}

#[test]
fn join_collect_returns_branch_structure() {
    let mut script = Script::new(vec![]);
    let out = script
        .run(&flow(
            r#"{"kind":"sequence","steps":[
                {"kind":"fork","id":"f","branches":{"a":"researcher","b":"scout"}},
                {"kind":"join","from":"f","mode":"all"}]}"#,
        ))
        .unwrap();
    assert!(out.get("branches").is_some());
    assert_eq!(out.get("branches").unwrap().get("a").unwrap(), &Json::text("done: a"));
}

#[test]
fn json_output_mode_parses_reply() {
    let mut script = Script::new(vec![("researcher", Ok("```json\n{\"score\": 7}\n```"))]);
    let out =
        script.run(&flow(r#"{"agent":"researcher","task":"rate it","output":"json"}"#)).unwrap();
    assert_eq!(out.get("score").unwrap().as_u64(), Some(7));
}

#[test]
fn json_output_mode_rejects_non_json() {
    let mut script = Script::new(vec![("researcher", Ok("not json at all"))]);
    let err =
        script.run(&flow(r#"{"agent":"researcher","task":"rate it","output":"json"}"#)).unwrap_err();
    assert!(err.message().contains("JSON"), "got: {}", err.message());
    assert_eq!(
        err,
        ToolError::Execution("expected valid JSON output from delegated agent".to_string())
    );
}

#[test]
fn replies_are_read_as_json_with_or_without_a_fence() {
    let read = |text: &str| parse_json_text(text).map(|value| value.compact());
    assert_eq!(read(" [1] \n").unwrap(), "[1]");
    assert_eq!(read("```\n[1]\n```").unwrap(), "[1]");
    assert_eq!(read("```json [1] ```  ").unwrap(), "[1]");
    assert_eq!(
        read(" \n\t").unwrap_err(),
        ToolError::Execution("expected JSON output but agent returned empty text".to_string())
    );
    assert_eq!(
        read("```json\n[1]").unwrap_err(),
        ToolError::Execution("expected valid JSON output from delegated agent".to_string())
    );
    assert_eq!(fenced("```json\n x ```").as_deref(), Some("x"));
    assert_eq!(fenced("```rust\nx```").as_deref(), Some("rust\nx"));
    assert_eq!(fenced("x```"), None);
    assert_eq!(fenced("```"), None);
}

#[test]
fn a_whole_reading_goes_before_a_fenced_one() {
    let one = || Some(json("1"));
    let two = || Some(json("2"));
    assert_eq!(chosen_reading(false, one(), two()).unwrap(), json("1"));
    assert_eq!(chosen_reading(false, None, two()).unwrap(), json("2"));
    assert!(chosen_reading(false, None, None).is_err());
    assert!(chosen_reading(true, one(), two()).is_err());
}

#[test]
fn replies_become_text_or_json_as_asked() {
    let ok = |text: &str| Ok::<String, ToolError>(text.to_string());
    assert_eq!(read_reply(&ok("[1]"), None).unwrap(), Json::text("[1]"));
    assert_eq!(read_reply(&ok("[1]"), Some(OutputMode::Text)).unwrap(), Json::text("[1]"));
    assert_eq!(read_reply(&ok("[1]"), Some(OutputMode::Json)).unwrap(), json("[1]"));
    let failed = Err(ToolError::InvalidArgument("no".to_string()));
    assert_eq!(
        read_reply(&failed, Some(OutputMode::Json)).unwrap_err(),
        ToolError::InvalidArgument("no".to_string())
    );
}

#[test]
fn placeholders_are_filled_only_where_there_is_something_to_fill_in() {
    assert_eq!(apply_previous("use {previous}, {previous}!", Some("x")), "use x, x!");
    assert_eq!(apply_previous("use {previous}", None), "use {previous}");
    assert_eq!(apply_previous("nothing here", Some("x")), "nothing here");
    assert_eq!(apply_previous("{previous}", Some("{previous}")), "{previous}");
}

#[test]
fn outputs_are_handed_on_as_text() {
    assert_eq!(output_to_text(&Json::text("as is")), "as is");
    assert_eq!(output_to_text(&json("{\"b\": [1, null], \"a\": {}}")), "{\"a\":{},\"b\":[1,null]}");
    let mut script = Script::new(vec![("a", Ok("{ \"k\": 1 }"))]);
    script
        .run(&flow(
            r#"{"kind":"sequence","steps":[
                {"agent":"a","task":"t","output":"json"},
                {"agent":"b","task":"got {previous}"}]}"#,
        ))
        .unwrap();
    assert_eq!(script.calls[1].1, "got {\"k\":1}");
}

#[test]
fn reducers_take_the_results_where_they_ask_for_them() {
    assert_eq!(reducer_task("sum {previous} up", "[1]"), "sum [1] up");
    assert_eq!(
        reducer_task("sum up", "[1]"),
        "sum up\n\nCollected branch results (JSON):\n```json\n[1]\n```"
    );
}

#[test]
fn an_empty_sequence_ends_with_null() {
    let mut script = Script::new(vec![]);
    assert_eq!(script.run(&flow(r#"{"kind":"sequence","steps":[]}"#)).unwrap(), Json::Null);
}

#[test]
fn a_failed_step_ends_the_sequence() {
    let mut script = Script::new(vec![("bad", Err("it broke"))]);
    let err = script
        .run(&flow(
            r#"{"kind":"sequence","steps":[
                {"agent":"bad","task":"t"},{"agent":"next","task":"t"}]}"#,
        ))
        .unwrap_err();
    assert_eq!(err, ToolError::Execution("it broke".to_string()));
    assert_eq!(script.calls.len(), 1);
}

#[test]
fn a_failed_branch_is_collected() {
    let mut script = Script::new(vec![("bad", Err("it broke"))]);
    let out = script
        .run(&flow(r#"{"kind":"fork","id":"f","branches":{"a":"bad","b":"good"}}"#))
        .unwrap();
    assert_eq!(out, json(r#"{"branches":{"b":"done: b"},"errors":{"a":"it broke"}}"#));
}

#[test]
fn joins_weigh_successes_and_failures() {
    let run = |join: &str| {
        let mut script = Script::new(vec![("bad", Err("it broke"))]);
        script.run(&flow(&format!(
            r#"{{"kind":"sequence","steps":[
                {{"kind":"fork","id":"f","branches":{{"a":"bad","b":"good","c":"good"}}}},
                {{"kind":"join","from":"f",{join}}}]}}"#
        )))
    };
    let message = |mode: &str| {
        ToolError::Execution(format!(
            "join \"f\" not satisfied (mode={mode}, 2 succeeded, 1 failed)"
        ))
    };
    assert_eq!(run(r#""mode":"all""#).unwrap_err(), message("All"));
    assert_eq!(run(r#""mode":"all","onFailure":"failFast""#).unwrap_err(), message("All"));
    assert!(run(r#""mode":"all","onFailure":"collectErrors""#).is_ok());
    assert!(run(r#""mode":"any""#).is_ok());
    assert!(run(r#""mode":"quorum","quorum":2"#).is_ok());
    assert_eq!(run(r#""mode":"quorum","quorum":3"#).unwrap_err(), message("Quorum"));
    assert!(run(r#""mode":"quorum","quorum":3,"onFailure":"collectErrors""#).is_ok());
}

#[test]
fn a_join_with_no_success_fails_even_if_lenient() {
    let mut script = Script::new(vec![("bad", Err("it broke"))]);
    let err = script
        .run(&flow(
            r#"{"kind":"sequence","steps":[
                {"kind":"fork","id":"f","branches":{"a":"bad"}},
                {"kind":"join","from":"f","mode":"any","onFailure":"collectErrors"}]}"#,
        ))
        .unwrap_err();
    assert_eq!(
        err.message(),
        "join \"f\" not satisfied (mode=Any, 0 succeeded, 1 failed)"
    );
}

#[test]
fn a_join_can_be_weighed_by_itself() {
    let FlowSpec::Join(j) =
        FlowSpec::from_json(&json(r#"{"kind":"join","from":"f","mode":"all"}"#)).unwrap()
    else {
        panic!("expected join")
    };
    assert!(check_join(&j, &json(r#"{"branches":{"a":1},"errors":{}}"#)).is_ok());
    assert!(check_join(&j, &json(r#"{"branches":{"a":1},"errors":{"b":"x"}}"#)).is_err());
    assert!(check_join(&j, &json("7")).is_ok());
}

#[test]
fn a_join_inside_a_branch_does_not_see_outer_forks() {
    let mut script = Script::new(vec![]);
    let out = script
        .run(&flow(
            r#"{"kind":"sequence","steps":[
                {"kind":"fork","id":"f","branches":{"a":"x"}},
                {"kind":"fork","id":"g","branches":{"b":{"kind":"join","from":"f","mode":"all"}}}]}"#,
        ))
        .unwrap();
    assert_eq!(
        out.get("errors").unwrap().get("b").unwrap(),
        &Json::text("join references fork \"f\" which has not completed (must run after the fork in the same sequence)")
    );
}

#[test]
fn loops_are_refused() {
    let mut script = Script::new(vec![]);
    let err = script
        .run(&flow(r#"{"kind":"loop","maxIterations":2,"body":{"agent":"a","task":"t"}}"#))
        .unwrap_err();
    assert_eq!(
        err,
        ToolError::Execution(
            "loop nodes are not supported in Phase 1 of the orchestrator".to_string()
        )
    );
}

#[test]
fn branches_start_as_the_cap_allows() {
    let six = |cap: &str| {
        flow(&format!(
            r#"{{"kind":"fork","id":"f"{cap},"branches":{{"a":"x","b":"x","c":"x","d":"x","e":"x","g":"x"}}}}"#
        ))
    };
    let start = |flow: &FlowSpec| pending(execute_flow(flow, &Transcript::new())).len();
    assert_eq!(start(&six("")), 4);
    assert_eq!(start(&six(r#","concurrency":2"#)), 2);
    assert_eq!(start(&six(r#","concurrency":0"#)), 1);
    assert_eq!(start(&six(r#","concurrency":9"#)), 6);

    let capped = six(r#","concurrency":2"#);
    let mut log = Transcript::new();
    log.record(vec![1], Ok("second".to_string()));
    let sites: Vec<Vec<usize>> =
        pending(execute_flow(&capped, &log)).into_iter().map(|call| call.site).collect();
    assert_eq!(sites, vec![vec![0], vec![2]]);

    let mut script = Script::new(vec![]);
    script.run(&capped).unwrap();
    assert_eq!(script.most_at_once, 2);
    assert_eq!(script.calls.len(), 6);
}

#[test]
fn the_order_of_replies_makes_no_difference() {
    let f = flow(
        r#"{"kind":"sequence","steps":[
            {"kind":"fork","id":"f","branches":{"a":"x","b":"y"}},
            {"kind":"join","from":"f","mode":"all"}]}"#,
    );
    let mut one = Transcript::new();
    assert!(one.record(vec![0, 0], Ok("A".to_string())));
    assert!(one.record(vec![0, 1], Ok("B".to_string())));
    let mut other = Transcript::new();
    assert!(other.record(vec![0, 1], Ok("B".to_string())));
    assert!(other.record(vec![0, 0], Ok("A".to_string())));
    assert_eq!(execute_flow(&f, &one), execute_flow(&f, &other));
    assert!(matches!(execute_flow(&f, &one), Step::Finished(Ok(_))));
}

#[test]
fn open_calls_stay_open_and_are_not_asked_for_twice() {
    let f = flow(r#"{"kind":"fork","id":"f","branches":{"a":"x","b":"y"}}"#);
    let mut log = Transcript::new();
    let first = pending(execute_flow(&f, &log));
    assert_eq!(first.len(), 2);
    assert!(log.record(first[0].site.clone(), Ok("A".to_string())));
    let second = pending(execute_flow(&f, &log));
    assert_eq!(second.len(), 1);
    assert_eq!(second[0], first[1]);
    assert!(!log.record(first[0].site.clone(), Ok("again".to_string())));
    assert_eq!(log.reply_to(&first[0].site).unwrap().as_ref().unwrap(), "A");
    assert!(log.reply_to(&first[1].site).is_none());
}

#[test]
fn what_stands_around_json_does_not_change_it() {
    for inner in ["7", " {\"k\": [1, \"`\"]}\n", "\"```\"", "null", "-0.5"] {
        let plain = parse_json_text(inner).unwrap();
        for (before, after) in [("", ""), (" \n", "\t"), ("\u{3000}", "\r\n")] {
            for text in [
                format!("{before}{inner}{after}"),
                format!("{before}```json\n{inner}\n```{after}"),
                format!("{before}```\n{inner}\n```{after}"),
            ] {
                assert_eq!(parse_json_text(&text).unwrap(), plain, "{text:?}");
            }
        }
    }
    assert!(Json::parse("`1`").is_none());
}
