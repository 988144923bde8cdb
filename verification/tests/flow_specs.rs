use chaz::flow::{FlowSpec, JoinMode, JoinReducer, NodeKind, OnFailure, OutputMode, SpawnSpec};
use chaz::json::{Json, JsonNumber};
use chaz::normalize::{normalize_value, resolve_branch_task, SpawnDefaults};
use chaz::parse::parse_flow;
use chaz::references::validate_references;

fn json(text: &str) -> Json {
    Json::parse(text).expect("test input is JSON")
}

fn spawn<'a>(flow: &'a FlowSpec) -> &'a SpawnSpec {
    match flow {
        FlowSpec::Spawn(s) => s,
        _ => panic!("expected spawn"),
    }
}

fn error_of(text: &str) -> String {
    parse_flow(&json(text)).unwrap_err()
}

#[test]
fn top_level_bare_string_has_no_task_and_errors() {
    let err = parse_flow(&Json::text("researcher")).unwrap_err();
    assert!(err.contains("task must be"), "got: {err}");
    assert_eq!(
        err,
        "flow.task must be a non-empty string or inherit one from fork.taskTemplate."
    );
}

#[test]
fn bare_string_branch_uses_branch_key_as_task() {
    let raw = json(
        r#"{"kind":"fork","id":"f","branches":{"alpha":"researcher","beta":"scout"}}"#,
    );
    let flow = parse_flow(&raw).unwrap();
    let FlowSpec::Fork(f) = flow else {
        panic!("expected fork")
    };
    let alpha = spawn(f.branches.get("alpha").unwrap());
    assert_eq!(alpha.agent, "researcher");
    assert_eq!(alpha.task, "alpha");
}

#[test]
fn object_without_kind_is_spawn() {
    let flow = parse_flow(&json(r#"{"agent":"scout","task":"find it"}"#)).unwrap();
    assert!(matches!(flow, FlowSpec::Spawn(_)));
}

#[test]
fn fork_pushes_task_template_into_branches() {
    let raw = json(
        r#"{"kind":"fork","id":"f1","agent":"researcher","taskTemplate":"Research {branch}",
            "branches":{"alpha":{},"beta":{}}}"#,
    );
    let flow = parse_flow(&raw).unwrap();
    let FlowSpec::Fork(f) = flow else {
        panic!("expected fork")
    };
    let alpha = spawn(f.branches.get("alpha").unwrap());
    assert_eq!(alpha.agent, "researcher");
    assert_eq!(alpha.task, "Research alpha");
}

#[test]
fn fork_without_join_ref_ok_join_with_unknown_fork_errors() {
    let err = error_of(
        r#"{"kind":"sequence","steps":[{"kind":"join","from":"nope","mode":"all"}]}"#,
    );
    assert!(err.contains("unknown fork"), "got: {err}");
    assert_eq!(err, "flow.steps[0].from references unknown fork \"nope\".");
}

#[test]
fn quorum_requires_quorum_field() {
    let err = error_of(
        r#"{"kind":"sequence","steps":[
            {"kind":"fork","id":"f","branches":{"a":"x","b":"y"}},
            {"kind":"join","from":"f","mode":"quorum"}]}"#,
    );
    assert!(err.contains("quorum is required"), "got: {err}");
}

#[test]
fn canonical_flow_round_trips_through_serde() {
    let canonical = json(
        r#"{"kind":"sequence","steps":[
            {"kind":"fork","id":"research","branches":{
                "a":{"kind":"spawn","agent":"researcher","task":"topic a","output":"json"},
                "b":{"kind":"spawn","agent":"researcher","task":"topic b"}}},
            {"kind":"join","from":"research","mode":"all",
                "reducer":{"kind":"agent","agent":"consolidator","task":"merge"}}]}"#,
    );
    let flow = FlowSpec::from_json(&canonical).unwrap();
    let back = flow.to_json();
    assert_eq!(canonical, back, "flow spec must round-trip byte-identically");
    assert_eq!(canonical.compact(), back.compact());
}

#[test]
fn every_kind_of_node_comes_back_from_its_canonical_form() {
    let text = r#"{"kind":"sequence","id":"s","label":"all of it","steps":[
        {"kind":"fork","id":"f","label":"fan","concurrency":2,"branches":{
            "x":{"kind":"spawn","id":"n","label":"l","agent":"a","task":"t","cwd":"/tmp","output":"text"}}},
        {"kind":"join","id":"j","label":"fold","from":"f","mode":"quorum","quorum":1,
            "reducer":{"kind":"agent","agent":"r","task":"t","output":"json"},
            "onFailure":"collectErrors"},
        {"kind":"loop","id":"again","label":"more","maxIterations":3,"continueWhen":{"a":[1,-2,0.5]},
            "body":{"kind":"join","from":"f","mode":"any","reducer":{"kind":"collect"},
                "onFailure":"failFast"}}]}"#;
    let canonical = json(text);
    let flow = FlowSpec::from_json(&canonical).unwrap();
    assert_eq!(flow.to_json(), canonical);
    assert_eq!(FlowSpec::from_json(&flow.to_json()).unwrap(), flow);
    assert_eq!(flow.kind_str(), "sequence");
    assert_eq!(flow.kind(), NodeKind::Sequence);
    assert_eq!(flow.id(), Some("s"));
    let FlowSpec::Sequence(s) = &flow else {
        panic!("expected sequence")
    };
    let FlowSpec::Join(j) = &s.steps[1] else {
        panic!("expected join")
    };
    assert_eq!(j.mode, JoinMode::Quorum);
    assert_eq!(j.quorum, Some(1));
    assert_eq!(j.on_failure, Some(OnFailure::CollectErrors));
    let Some(JoinReducer::Agent(r)) = &j.reducer else {
        panic!("expected an agent")
    };
    assert_eq!(r.output, Some(OutputMode::Json));
    assert_eq!(s.steps[0].kind_str(), "fork");
    assert_eq!(s.steps[1].kind_str(), "join");
    assert_eq!(s.steps[2].kind_str(), "loop");
    assert_eq!(s.steps[2].id(), Some("again"));
}

#[test]
fn a_null_condition_reads_as_none() {
    let node = json(
        r#"{"kind":"loop","id":"l","maxIterations":1,"continueWhen":null,
            "body":{"kind":"spawn","agent":"a","task":"t"}}"#,
    );
    let FlowSpec::Loop(l) = FlowSpec::from_json(&node).unwrap() else {
        panic!("expected loop")
    };
    assert_eq!(l.continue_when, None);
}

#[test]
fn parsing_its_own_output_changes_nothing() {
    let raw = json(
        r#"{"kind":"sequence","steps":[
            {"kind":"fork","agent":"r","taskTemplate":"do {branch} and {branch}","cwd":"/w",
                "output":"json","concurrency":"many","branches":{"b":{},"a":{"task":"own","cwd":"/x"},"c":"named"}},
            {"kind":"join","from":"fork","mode":"any","extra":1},
            "ignored"]}"#,
    );
    assert_eq!(
        parse_flow(&raw).unwrap_err(),
        "flow.steps[2].task must be a non-empty string or inherit one from fork.taskTemplate."
    );
    let raw = json(
        r#"{"kind":"sequence","steps":[
            {"kind":"fork","agent":"r","taskTemplate":"do {branch} and {branch}","cwd":"/w",
                "output":"json","concurrency":"many","branches":{"b":{},"a":{"task":"own","cwd":"/x"},"c":"named"}},
            {"kind":"join","from":"fork","mode":"any","extra":1}]}"#,
    );
    let flow = parse_flow(&raw).unwrap();
    let FlowSpec::Sequence(s) = &flow else {
        panic!("expected sequence")
    };
    let FlowSpec::Fork(f) = &s.steps[0] else {
        panic!("expected fork")
    };
    assert_eq!(f.id, "fork");
    assert_eq!(f.concurrency, None);
    assert_eq!(f.branches.len(), 3);
    assert_eq!(f.branches.key_at(0), "a");
    assert_eq!(f.branches.key_at(2), "c");
    let a = spawn(f.branches.value_at(0));
    assert_eq!(a.task, "own");
    assert_eq!(a.cwd.as_deref(), Some("/x"));
    let b = spawn(f.branches.value_at(1));
    assert_eq!(b.task, "do b and b");
    assert_eq!(b.cwd.as_deref(), Some("/w"));
    assert_eq!(b.output, Some(OutputMode::Json));
    assert_eq!(spawn(f.branches.value_at(2)).agent, "named");
    assert_eq!(parse_flow(&flow.to_json()).unwrap(), flow);
}

#[test]
fn lowering_leaves_canonical_form_alone() {
    let canonical = json(
        r#"{"kind":"fork","id":"f","concurrency":3,"branches":{
            "a":{"kind":"spawn","agent":"x","task":"t"},
            "b":{"kind":"sequence","steps":[]}}}"#,
    );
    let lowered = normalize_value(&canonical, &SpawnDefaults::none()).unwrap();
    assert_eq!(lowered, canonical);
}

#[test]
fn lowering_refuses_what_it_cannot_read() {
    assert_eq!(error_of("7"), "flow must be an object or agent-name string.");
    assert_eq!(error_of("null"), "flow must be an object or agent-name string.");
    assert_eq!(
        error_of(r#"{"task":"t"}"#),
        "flow.agent must be a non-empty string or inherit one from the parent fork."
    );
    assert_eq!(
        error_of(r#"{"agent":"  \t\n","task":"t"}"#),
        "flow.agent must be a non-empty string or inherit one from the parent fork."
    );
    assert_eq!(error_of(r#"{"kind":"sequence"}"#), "flow.steps must be an array.");
    assert_eq!(error_of(r#"{"kind":"sequence","steps":{}}"#), "flow.steps must be an array.");
    assert_eq!(
        error_of(r#"{"kind":"fork","branches":{}}"#),
        "flow.branches must be a non-empty object."
    );
    assert_eq!(error_of(r#"{"kind":"fork"}"#), "flow.branches must be a non-empty object.");
    assert_eq!(error_of(r#"{"kind":"loop"}"#), "flow.body is required for a loop.");
    assert_eq!(
        error_of("{\"kind\":\"a\\\"b\\n\"}"),
        "flow.kind must be one of spawn, sequence, fork, join, loop (got \"a\\\"b\\n\")."
    );
    assert_eq!(
        error_of(r#"{"kind":"fork","branches":{"k":{"kind":"sequence","steps":["a"]}}}"#),
        "flow.branches.k.steps[0].task must be a non-empty string or inherit one from fork.taskTemplate."
    );
    assert_eq!(
        error_of(r#"{"kind":"loop","body":3}"#),
        "flow.body must be an object or agent-name string."
    );
}

#[test]
fn reading_refuses_what_no_flow_looks_like() {
    for (raw, message) in [
        (r#"{"agent":"a","task":"t","output":"xml"}"#, "unknown variant `xml`, expected `text` or `json`"),
        (r#"{"agent":"a","task":"t","output":4}"#, "invalid type: integer `4`, expected string or map"),
        (r#"{"agent":"a","task":"t","output":{}}"#, "invalid value: map, expected map with a single key"),
        (r#"{"agent":"a","task":"t","output":{"json":1}}"#, "invalid type: integer `1`, expected unit"),
        (r#"{"kind":"join","mode":"all"}"#, "missing field `from`"),
        (r#"{"kind":"join","from":"f"}"#, "missing field `mode`"),
        (r#"{"kind":"join","from":["f"],"mode":"all"}"#, "invalid type: sequence, expected a string"),
        (r#"{"kind":"join","from":"f","mode":"most"}"#, "unknown variant `most`, expected one of `all`, `any`, `quorum`"),
        (r#"{"kind":"join","from":"f","mode":null}"#, "invalid type: null, expected string or map"),
        (r#"{"kind":"join","from":"f","mode":"quorum","quorum":-1}"#, "invalid value: integer `-1`, expected usize"),
        (r#"{"kind":"join","from":"f","mode":"quorum","quorum":1.5}"#, "invalid type: floating point `1.5`, expected usize"),
        (r#"{"kind":"join","from":"f","mode":"quorum","quorum":"q"}"#, "invalid type: string \"q\", expected usize"),
        (r#"{"kind":"join","from":"f","mode":"all","reducer":true}"#, "invalid type: boolean `true`, expected internally tagged enum JoinReducer"),
        (r#"{"kind":"join","from":"f","mode":"all","reducer":{}}"#, "missing field `kind`"),
        (r#"{"kind":"join","from":"f","mode":"all","reducer":[]}"#, "missing field `kind`"),
        (r#"{"kind":"join","from":"f","mode":"all","reducer":{"kind":"sum"}}"#, "unknown variant `sum`, expected `collect` or `agent`"),
        (r#"{"kind":"join","from":"f","mode":"all","reducer":{"kind":2}}"#, "invalid value: integer `2`, expected variant index 0 <= i < 2"),
        (r#"{"kind":"join","from":"f","mode":"all","reducer":{"kind":false}}"#, "invalid type: boolean `false`, expected variant identifier"),
        (r#"{"kind":"join","from":"f","mode":"all","reducer":{"kind":"agent","task":"t"}}"#, "missing field `agent`"),
        (r#"{"kind":"join","from":"f","mode":"all","reducer":["agent","a"]}"#, "invalid length 1, expected struct AgentReducer with 3 elements"),
        (r#"{"kind":"join","from":"f","mode":"all","reducer":["agent","a","t",null,0]}"#, "invalid length 4, expected 3 elements in sequence"),
        (r#"{"kind":"join","from":"f","mode":"all","reducer":["collect",1]}"#, "invalid length 1, expected 0 elements in sequence"),
        (r#"{"kind":"join","from":"f","mode":"all","onFailure":"panic"}"#, "unknown variant `panic`, expected `failFast` or `collectErrors`"),
        (r#"{"kind":"join","reducer":1,"mode":"bad"}"#, "unknown variant `bad`, expected one of `all`, `any`, `quorum`"),
        (r#"{"kind":"loop","body":{"agent":"a","task":"t"}}"#, "missing field `maxIterations`"),
        (r#"{"kind":"loop","maxIterations":{},"body":{"agent":"a","task":"t"}}"#, "invalid type: map, expected usize"),
    ] {
        assert_eq!(error_of(raw), format!("invalid flow spec: {message}"), "{raw}");
    }
}

#[test]
fn reading_by_itself_refuses_more() {
    for (node, message) in [
        (r#"{"kind":"spawn","task":"t"}"#, "missing field `agent`"),
        (r#"{"kind":"spawn","agent":"a"}"#, "missing field `task`"),
        (r#"{"kind":"nap"}"#, "unknown variant `nap`, expected one of `spawn`, `sequence`, `fork`, `join`, `loop`"),
        (r#"{"kind":0,"agent":"a","task":"t"}"#, "invalid type: integer `0`, expected variant identifier"),
        (r#"{"kind":"sequence","steps":[{"kind":5}]}"#, "invalid value: integer `5`, expected variant index 0 <= i < 5"),
        (r#"{"kind":"sequence"}"#, "missing field `steps`"),
        (r#"{"kind":"sequence","steps":{}}"#, "invalid type: map, expected a sequence"),
        (r#"{"kind":"sequence","steps":["a"]}"#, "invalid type: string \"a\", expected internally tagged enum FlowSpec"),
        (r#"{"kind":"fork","branches":{}}"#, "missing field `id`"),
        (r#"{"kind":"fork","id":"f"}"#, "missing field `branches`"),
        (r#"{"kind":"fork","id":"f","branches":[]}"#, "invalid type: sequence, expected a map"),
        (r#"{"kind":"loop","id":"l","maxIterations":1}"#, "missing field `body`"),
        (r#"{"kind":"loop","maxIterations":1}"#, "missing field `id`"),
        ("[]", "missing field `kind`"),
        ("{}", "missing field `kind`"),
        ("null", "invalid type: null, expected internally tagged enum FlowSpec"),
        (r#"["spawn","a","t"]"#, "invalid length 2, expected struct SpawnSpec with 6 elements"),
        (r#"["sequence",null,null,[],1]"#, "invalid length 4, expected 3 elements in sequence"),
        (r#"["fork","f",null,{}]"#, "invalid length 3, expected struct ForkSpec with 4 elements"),
        (r#"["loop","l",null,{"kind":"spawn","agent":"a","task":"t"},1]"#, "invalid length 4, expected struct LoopSpec with 5 elements"),
        (r#"["join",null]"#, "invalid length 1, expected struct JoinSpec with 7 elements"),
    ] {
        assert_eq!(FlowSpec::from_json(&json(node)).unwrap_err(), message, "{node}");
    }
}

#[test]
fn complaints_are_worded_as_serde_json_words_them() {
    for value in ["null", "true", "3", "-3", "2.5", "1e300", "[]", "{}", "\"a\\\"\\n\\u00e9\""] {
        let parsed: serde_json::Value = serde_json::from_str(value).unwrap();
        let text = |field: &str| {
            FlowSpec::from_json(&json(&field.replace('#', value))).map(|_| ()).map_err(|e| e.to_string())
        };
        let expected =
            serde_json::from_value::<String>(parsed.clone()).map(|_| ()).map_err(|e| e.to_string());
        assert_eq!(text(r##"{"kind":"spawn","agent":#,"task":"t"}"##), expected, "{value}");
        let expected =
            serde_json::from_value::<usize>(parsed).map(|_| ()).map_err(|e| e.to_string());
        assert_eq!(
            text(r##"{"kind":"loop","id":"l","maxIterations":#,"body":{"kind":"spawn","agent":"a","task":"t"}}"##),
            expected,
            "{value}"
        );
    }
}

#[test]
fn reading_takes_the_forms_that_choices_and_nodes_come_in() {
    let node = json(r#"["spawn",null,"l","a","t",null,{"json":null}]"#);
    let flow = FlowSpec::from_json(&node).unwrap();
    let s = spawn(&flow);
    assert_eq!(s.id, None);
    assert_eq!(s.label.as_deref(), Some("l"));
    assert_eq!(s.output, Some(OutputMode::Json));
    assert!(FlowSpec::from_json(&json(r#"["spawn","a","t"]"#)).is_err());
    let nested = json(r#"{"kind":"sequence","steps":[{"kind":0,"agent":"a","task":"t"}]}"#);
    assert!(FlowSpec::from_json(&nested).is_ok());
    assert!(FlowSpec::from_json(&json(r#"{"kind":0,"agent":"a","task":"t"}"#)).is_err());
}

#[test]
fn references_must_be_in_order() {
    let fork = r#"{"kind":"fork","id":"f","branches":{"a":"x"}}"#;
    let join = r#"{"kind":"join","from":"f","mode":"all"}"#;
    let sequence = |steps: &[&str]| format!(r#"{{"kind":"sequence","steps":[{}]}}"#, steps.join(","));

    assert!(parse_flow(&json(&sequence(&[fork, join]))).is_ok());
    assert_eq!(
        error_of(&sequence(&[fork, join, join])),
        "flow.steps[2].from references fork \"f\", already joined at flow.steps[1].from."
    );
    assert_eq!(
        error_of(&sequence(&[join, fork])),
        "flow.steps[0].from: fork \"f\" is not in scope at this point."
    );
    assert_eq!(
        error_of(&sequence(&[fork, fork])),
        "flow.steps[1].id duplicates \"f\", already used by a fork node."
    );
    assert_eq!(
        error_of(&sequence(&[r#"{"id":"f","agent":"a","task":"t"}"#, join])),
        "flow.steps[1].from must reference a fork node, but \"f\" is a spawn."
    );
    assert_eq!(
        error_of(&sequence(&[fork, r#"{"kind":"join","from":"f","mode":"quorum"}"#])),
        "flow.steps[1].quorum is required when mode=\"quorum\"."
    );
    let inside = format!(
        r#"{{"kind":"fork","id":"g","branches":{{"only":{}}}}}"#,
        sequence(&[join])
    );
    assert!(parse_flow(&json(&sequence(&[fork, &inside]))).is_ok());
    assert_eq!(
        error_of(&sequence(&[&inside, fork])),
        "flow.steps[0].branches.only.steps[0].from: fork \"f\" is not in scope at this point."
    );
    let looped = format!(r#"{{"kind":"loop","id":"l","maxIterations":1,"body":{}}}"#, join);
    assert!(parse_flow(&json(&sequence(&[fork, &looped]))).is_ok());
    assert_eq!(
        error_of(&sequence(&[fork, &looped.replace("\"f\"", "\"nope\"")])),
        "flow.steps[1].body.from references unknown fork \"nope\"."
    );
}

#[test]
fn a_flow_can_be_checked_by_itself() {
    let flow = FlowSpec::from_json(&json(r#"{"kind":"join","from":"f","mode":"all"}"#)).unwrap();
    assert_eq!(
        validate_references(&flow).unwrap_err(),
        "flow.from references unknown fork \"f\"."
    );
}

#[test]
fn branch_tasks_come_from_template_or_key() {
    let mut defaults = SpawnDefaults::none();
    assert_eq!(resolve_branch_task(&defaults), None);
    defaults.branch_key = Some("k".to_string());
    assert_eq!(resolve_branch_task(&defaults).as_deref(), Some("k"));
    defaults.task_template = Some("{branch}-{branch}{bran".to_string());
    assert_eq!(resolve_branch_task(&defaults).as_deref(), Some("k-k{bran"));
    defaults.branch_key = None;
    assert_eq!(resolve_branch_task(&defaults).as_deref(), Some("-{bran"));
}

#[test]
fn numbers_keep_their_kind() {
    assert_eq!(json("18446744073709551615").as_u64(), Some(u64::MAX));
    assert_eq!(json("-7"), Json::Number(JsonNumber::Signed(-7)));
    assert_eq!(json("1.5").as_u64(), None);
    assert!(matches!(json("1.5"), Json::Number(JsonNumber::Fraction(_))));
    assert_eq!(json("[1.5,-3,2]").compact(), "[1.5,-3,2]");
    assert_eq!(json("[1.5,-3,2]").clone(), json(" [ 1.5 , -3 , 2 ] "));
}

#[test]
fn json_text_is_read_and_rendered() {
    assert_eq!(Json::parse("{\"b\":1,\"a\":[true,null]}").unwrap().compact(), "{\"a\":[true,null],\"b\":1}");
    assert_eq!(Json::parse("{\"b\":1}").unwrap().pretty(), "{\n  \"b\": 1\n}");
    assert_eq!(Json::parse("\"a\\u0062\"").unwrap(), Json::text("ab"));
    assert!(Json::parse("{").is_none());
    assert!(Json::parse("").is_none());
    let deep = json(r#"{"a":{"b":"c"}}"#);
    assert_eq!(deep.get("a").and_then(|a| a.get("b")).unwrap(), &Json::text("c"));
    assert!(deep.get("z").is_none());
}

#[test]
fn a_copy_equals_what_it_was_copied_from() {
    let flow = parse_flow(&json(
        r#"{"kind":"sequence","id":"s","label":"all","steps":[
            {"kind":"fork","id":"f","concurrency":2,
             "branches":{"b":{"agent":"y","task":"t2","output":"json","cwd":"/tmp"},
                         "a":{"agent":"x","task":"t1"}}},
            {"kind":"loop","id":"l","maxIterations":3,"continueWhen":{"k":[1,"v"]},
             "body":{"agent":"z","task":"again"}},
            {"kind":"join","from":"f","mode":"quorum","quorum":1,"onFailure":"collectErrors",
             "reducer":{"kind":"agent","agent":"w","task":"merge","output":"json"}}]}"#,
    ))
    .unwrap();
    let copy = flow.clone();
    assert_eq!(copy, flow);
    assert_eq!(copy.to_json(), flow.to_json());
}

#[test]
fn integers_are_read_by_their_value() {
    assert_eq!(Json::Number(JsonNumber::Signed(5)).as_u64(), Some(5));
    assert_eq!(Json::Number(JsonNumber::Signed(-5)).as_u64(), None);
    let mut raw = json(r#"{"kind":"fork","id":"f","branches":{"a":{"agent":"x","task":"t"}}}"#);
    let Json::Object(map) = &mut raw else {
        panic!("expected object")
    };
    map.insert("concurrency".to_string(), Json::Number(JsonNumber::Signed(2)));
    let FlowSpec::Fork(fork) = parse_flow(&raw).unwrap() else {
        panic!("expected fork")
    };
    assert_eq!(fork.concurrency, Some(2));
}

#[test]
fn numbers_come_over_from_serde_json() {
    let of = |n: serde_json::Number| JsonNumber::new(n.as_u64(), n.as_i64(), n);
    assert_eq!(of(serde_json::Number::from(7u64)), JsonNumber::Unsigned(7));
    assert_eq!(of(serde_json::Number::from(-7i64)), JsonNumber::Signed(-7));
    let half = serde_json::Number::from_f64(0.5).unwrap();
    let JsonNumber::Fraction(fraction) = of(half.clone()) else {
        panic!("expected a fraction")
    };
    assert_eq!(fraction.number(), &half);
    assert_eq!(Json::Number(JsonNumber::Fraction(fraction)).compact(), "0.5");
}

#[test]
fn lowering_twice_is_lowering_once() {
    let raw = json(
        r#"{"kind":"fork","agent":"x","taskTemplate":"do {branch}","cwd":"/w","output":7,
            "concurrency":2.5,"branches":{"b":{},
            "c":{"kind":"loop","body":{"kind":"join","mode":3},"maxIterations":"many"}}}"#,
    );
    let once = normalize_value(&raw, &SpawnDefaults::none()).unwrap();
    let twice = normalize_value(&once, &SpawnDefaults::none()).unwrap();
    assert_eq!(once, twice);
}
