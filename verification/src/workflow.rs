//! The `workflow` tool: delegation to other agents, composed as a graph.
//!
//! An agent calls the tool with one task, with a list of tasks to run side by
//! side, or with a flow.

use std::sync::Arc;
use vstd::prelude::*;
use vstd::string::*;
use crate::canonical;
use crate::codec;
use crate::executor;
use crate::executor::{Call, Fault, State, Step, ToolError, Transcript};
use crate::flow::{FlowSpec, FlowView, ForkView, JoinView, NodeKind, OutputMode, SpawnView};
use crate::json;
use crate::json::{Json, JsonView};
use crate::normalize;
use crate::ordered;
use crate::ordered::SortedMap;
use crate::parse;
use crate::references;
use crate::text;

verus! {

broadcast use vstd::string::group_string_axioms;

// ---------------------------------------------------------------------------
// From arguments to a flow
// ---------------------------------------------------------------------------

/// The text that an object holds under a key, where it holds one.
pub open spec fn text_member(value: JsonView, key: Seq<char>) -> Option<Seq<char>> {
    match value.member(key) {
        Some(found) => found.as_text(),
        None => None,
    }
}

/// The node of one task.
pub open spec fn task_node(
    agent: Seq<char>,
    task: Seq<char>,
    output: Option<JsonView>,
) -> JsonView {
    canonical::spawn_shape(None, None, agent, task, None, output)
}

/// The branch key of the task at position `i`.
pub open spec fn task_key(i: int) -> Seq<char> {
    "task-"@ + text::decimal_text(i as nat)
}

/// The branches of the first `n` tasks.
pub open spec fn task_branches(tasks: Seq<JsonView>, n: nat) -> Result<
    Seq<(Seq<char>, JsonView)>,
    Seq<char>,
>
    decreases n,
{
    if n == 0 || n > tasks.len() {
        Ok(Seq::empty())
    } else {
        match task_branches(tasks, (n - 1) as nat) {
            Err(message) => Err(message),
            Ok(done) => {
                let item = tasks[n - 1];
                match (text_member(item, "agent"@), text_member(item, "task"@)) {
                    (Some(agent), Some(task)) => Ok(
                        ordered::put(
                            done,
                            task_key(n - 1),
                            task_node(agent, task, item.member("output"@)),
                        ),
                    ),
                    _ => Err(
                        "tasks["@ + text::decimal_text((n - 1) as nat)
                            + "] needs both 'agent' and 'task'."@,
                    ),
                }
            },
        }
    }
}

/// The flow that the tool's arguments denote, before it is lowered.
pub open spec fn resolved(arguments: JsonView) -> Result<JsonView, Seq<char>> {
    match arguments.member("tasks"@) {
        Some(JsonView::Array(tasks)) => if tasks.len() == 0 {
            Err("'tasks' was empty — provide at least one {agent, task}."@)
        } else {
            match task_branches(tasks, tasks.len()) {
                Err(message) => Err(message),
                Ok(branches) => Ok(
                    canonical::fork_shape(
                        "tasks"@,
                        None,
                        arguments.member("concurrency"@),
                        branches,
                    ),
                ),
            }
        },
        _ => match arguments.member("flow"@) {
            Some(flow) => if flow is Text {
                Err(
                    "named flows (flow: \"<name>\") are a Phase 2 feature; pass an inline flow object."@,
                )
            } else {
                Ok(flow)
            },
            None => match (text_member(arguments, "agent"@), text_member(arguments, "task"@)) {
                (Some(agent), Some(task)) => Ok(
                    task_node(agent, task, arguments.member("output"@)),
                ),
                _ => Err("Either 'flow', 'tasks', or both 'agent' and 'task' are required."@),
            },
        },
    }
}

fn text_of<'a>(value: &'a Json, key: &str) -> (found: Option<&'a String>)
    ensures
        match found {
            Some(text) => text_member(value@, key@) == Some(text@),
            None => text_member(value@, key@) is None,
        },
{
    match value.get(key) {
        Some(found) => found.as_text(),
        None => None,
    }
}

fn copy_of(value: &Json, key: &str) -> (copy: Option<Json>)
    ensures
        canonical::json_option(copy) == value@.member(key@),
{
    match value.get(key) {
        Some(found) => Some(found.clone()),
        None => None,
    }
}

fn branch_tasks(tasks: &Vec<Json>) -> (result: Result<SortedMap<Json>, String>)
    ensures
        match result {
            Ok(branches) => task_branches(json::elements(tasks@), tasks@.len()) == Ok::<
                Seq<(Seq<char>, JsonView)>,
                Seq<char>,
            >(json::fields(branches)),
            Err(message) => task_branches(json::elements(tasks@), tasks@.len()) == Err::<
                Seq<(Seq<char>, JsonView)>,
                Seq<char>,
            >(message@),
        },
{
    let ghost all = json::elements(tasks@);
    let mut branches: SortedMap<Json> = SortedMap::new();
    assert(json::fields(branches) =~= Seq::empty());
    let mut i: usize = 0;
    while i < tasks.len()
        invariant
            all == json::elements(tasks@),
            i <= tasks@.len(),
            task_branches(all, i as nat) == Ok::<Seq<(Seq<char>, JsonView)>, Seq<char>>(
                json::fields(branches),
            ),
        decreases tasks@.len() - i,
    {
        let item = &tasks[i];
        assert(all[i as int] == item@);
        let number = text::decimal(i as u64);
        match (text_of(item, "agent"), text_of(item, "task")) {
            (Some(agent), Some(task)) => {
                let node = canonical::spawn_object(
                    None,
                    None,
                    agent.clone(),
                    task.clone(),
                    None,
                    copy_of(item, "output"),
                );
                json::set_field(&mut branches, text::join("task-", number.as_str()), node);
            },
            _ => {
                proof {
                    lemma_branches_failure(all, i as nat, all.len());
                }
                return Err(
                    text::join3("tasks[", number.as_str(), "] needs both 'agent' and 'task'."),
                );
            },
        }
        i += 1;
    }
    Ok(branches)
}

proof fn lemma_branches_failure(tasks: Seq<JsonView>, i: nat, n: nat)
    requires
        i < n <= tasks.len(),
        task_branches(tasks, i + 1) is Err,
    ensures
        task_branches(tasks, n) == task_branches(tasks, i + 1),
    decreases n,
{
    if n > i + 1 {
        lemma_branches_failure(tasks, i, (n - 1) as nat);
    }
}

/// The `workflow` tool.
#[derive(Debug)]
pub struct WorkflowTool<D> {
    /// What hands the tasks of a flow to agents.
    pub delegate: Arc<D>,
}

impl<D> WorkflowTool<D> {
    /// Build the flow value from the tool's arguments: one `{agent, task}`, a
    /// list `{tasks: [...]}`, or an explicit `{flow}`.
    pub fn resolve_flow(arguments: &Json) -> (result: Result<Json, String>)
        ensures
            normalize::agrees(result, resolved(arguments@)),
    {
        match arguments.get("tasks") {
            Some(Json::Array(tasks)) => {
                proof {
                    Json::Array(*tasks).lemma_view();
                }
                if tasks.len() == 0 {
                    return Err(
                        "'tasks' was empty — provide at least one {agent, task}.".to_owned(),
                    );
                }
                return match branch_tasks(tasks) {
                    Ok(branches) => Ok(
                        canonical::fork_object(
                            "tasks".to_owned(),
                            None,
                            copy_of(arguments, "concurrency"),
                            branches,
                        ),
                    ),
                    Err(message) => Err(message),
                };
            },
            _ => {},
        }
        match arguments.get("flow") {
            Some(Json::Text(_)) => {
                return Err(
                    "named flows (flow: \"<name>\") are a Phase 2 feature; pass an inline flow object.".to_owned(),
                );
            },
            Some(flow) => return Ok(flow.clone()),
            None => {},
        }
        match (text_of(arguments, "agent"), text_of(arguments, "task")) {
            (Some(agent), Some(task)) => Ok(
                canonical::spawn_object(
                    None,
                    None,
                    agent.clone(),
                    task.clone(),
                    None,
                    copy_of(arguments, "output"),
                ),
            ),
            _ => Err(
                "Either 'flow', 'tasks', or both 'agent' and 'task' are required.".to_owned(),
            ),
        }
    }
}

// ---------------------------------------------------------------------------
// Running the tool
// ---------------------------------------------------------------------------

/// The flow that a call of the tool runs.
pub open spec fn prepared(arguments: JsonView) -> Result<FlowView, Fault> {
    match resolved(arguments) {
        Err(message) => Err(Fault::InvalidArgument(message)),
        Ok(raw) => match parse::parsed(raw) {
            Err(message) => Err(Fault::InvalidArgument(message)),
            Ok(flow) => Ok(flow),
        },
    }
}

/// A flow's output as the tool's answer: a text as it is, anything else as
/// indented JSON.
pub open spec fn presented(output: JsonView) -> Seq<char> {
    match output {
        JsonView::Text(text) => text,
        other => json::pretty_json(other),
    }
}

/// What to do next with a call of the tool.
#[derive(Debug, PartialEq)]
pub enum ToolStep {
    /// Nothing: this is the answer.
    Finished(Result<String, ToolError>),
    /// Make the calls that were not made yet, and record their replies.
    Pending(Vec<Call>),
}

/// A step of the tool is the one that a run of its flow asks for.
pub open spec fn step_agrees(
    step: ToolStep,
    flow: Result<FlowView, Fault>,
    log: Map<Seq<int>, Result<Seq<char>, Fault>>,
) -> bool {
    match flow {
        Err(fault) => step matches ToolStep::Finished(Err(error)) && error@ == fault,
        Ok(flow) => {
            let run = executor::executed(flow, log);
            match run.state {
                State::Done(output) => step matches ToolStep::Finished(Ok(text)) && text@
                    == presented(output),
                State::Failed(fault) => step matches ToolStep::Finished(Err(error)) && error@
                    == fault,
                State::Waiting => step matches ToolStep::Pending(calls) && executor::call_views(
                    calls@,
                ) == run.calls,
            }
        },
    }
}

/// Turn a flow's output into the tool's answer.
pub fn present(output: Json) -> (text: String)
    ensures
        text@ == presented(output@),
{
    match output {
        Json::Text(text) => text,
        other => other.pretty(),
    }
}

impl<D> WorkflowTool<D> {
    /// The flow that a call of the tool runs.
    pub fn prepare(&self, arguments: &Json) -> (result: Result<FlowSpec, ToolError>)
        ensures
            match result {
                Ok(flow) => prepared(arguments@) == Ok::<FlowView, Fault>(flow@),
                Err(error) => prepared(arguments@) == Err::<FlowView, Fault>(error@),
            },
    {
        let raw = match WorkflowTool::<D>::resolve_flow(arguments) {
            Ok(raw) => raw,
            Err(message) => return Err(ToolError::InvalidArgument(message)),
        };
        match parse::parse_flow(&raw) {
            Ok(flow) => Ok(flow),
            Err(message) => Err(ToolError::InvalidArgument(message)),
        }
    }

    /// Carry a call of the tool as far as the replies in the transcript go: its
    /// answer, or the calls that it waits for.
    pub fn execute(&self, arguments: &Json, log: &Transcript) -> (step: ToolStep)
        ensures
            step_agrees(step, prepared(arguments@), log@),
    {
        let flow = match self.prepare(arguments) {
            Ok(flow) => flow,
            Err(error) => return ToolStep::Finished(Err(error)),
        };
        match executor::execute_flow(&flow, log) {
            Step::Finished(Ok(output)) => ToolStep::Finished(Ok(present(output))),
            Step::Finished(Err(error)) => ToolStep::Finished(Err(error)),
            Step::Pending(calls) => ToolStep::Pending(calls),
        }
    }
}

/// The arguments with which `spawn_agent` is called for a task.
pub open spec fn spawn_shape(agent: Seq<char>, task: Seq<char>) -> JsonView {
    JsonView::Object(
        ordered::put(
            ordered::put(Seq::empty(), "agent_ref"@, JsonView::Text(agent)),
            "task"@,
            JsonView::Text(task),
        ),
    )
}

/// Build the arguments with which `spawn_agent` is called for a task.
pub fn spawn_arguments(agent: &str, task: &str) -> (arguments: Json)
    ensures
        arguments@ == spawn_shape(agent@, task@),
{
    let mut map: SortedMap<Json> = SortedMap::new();
    assert(json::fields(map) =~= Seq::empty());
    json::set_field(&mut map, "agent_ref".to_owned(), Json::text(agent));
    json::set_field(&mut map, "task".to_owned(), Json::text(task));
    let arguments = Json::Object(map);
    proof {
        arguments.lemma_view();
    }
    arguments
}

// ---------------------------------------------------------------------------
// How the tool describes itself
// ---------------------------------------------------------------------------

/// What an agent is told of a tool.
#[derive(Debug, PartialEq)]
pub struct ToolDescriptor {
    pub name: String,
    pub description: String,
    /// JSON schema of the arguments.
    pub parameters: Json,
}

/// How much harm a tool can do.
#[derive(Debug, Clone, Copy, PartialEq, Eq, Structural)]
pub enum RiskLevel {
    Low,
    Medium,
    High,
}

/// When a call needs approval.
#[derive(Debug, Clone, Copy, PartialEq, Eq, Structural)]
pub enum ApprovalRequirement {
    Never,
    UnlessAutoApproved,
    Always,
}

/// Under which conditions a tool runs.
#[derive(Debug, Clone, Copy, PartialEq, Eq, Structural)]
pub struct ToolPolicy {
    pub risk: RiskLevel,
    pub approval: ApprovalRequirement,
    /// In seconds.
    pub timeout: u64,
}

/// The schema of a value: its type and what it is for.
pub open spec fn property(kind: Seq<char>, description: Seq<char>) -> Seq<(Seq<char>, JsonView)> {
    ordered::put(
        ordered::put(Seq::empty(), "type"@, JsonView::Text(kind)),
        "description"@,
        JsonView::Text(description),
    )
}

/// The schema of an output mode.
pub open spec fn output_property(description: Seq<char>) -> JsonView {
    JsonView::Object(
        ordered::put(
            property("string"@, description),
            "enum"@,
            JsonView::Array(seq![JsonView::Text("text"@), JsonView::Text("json"@)]),
        ),
    )
}

/// The schema of one task of a list of tasks.
pub open spec fn task_schema() -> JsonView {
    let properties = ordered::put(
        Seq::empty(),
        "agent"@,
        JsonView::Object(property("string"@, "Agent name."@)),
    );
    let properties = ordered::put(
        properties,
        "task"@,
        JsonView::Object(property("string"@, "Task description."@)),
    );
    let properties = ordered::put(properties, "output"@, output_property("Output typing."@));
    let entries = ordered::put(Seq::empty(), "type"@, JsonView::Text("object"@));
    let entries = ordered::put(entries, "properties"@, JsonView::Object(properties));
    JsonView::Object(
        ordered::put(
            entries,
            "required"@,
            JsonView::Array(seq![JsonView::Text("agent"@), JsonView::Text("task"@)]),
        ),
    )
}

/// The schema of the tool's arguments.
pub open spec fn schema() -> JsonView {
    let properties = ordered::put(
        Seq::empty(),
        "agent"@,
        JsonView::Object(
            property(
                "string"@,
                "Single mode: the agent (display name or DB ID) to delegate to. Pair with 'task'."@,
            ),
        ),
    );
    let properties = ordered::put(
        properties,
        "task"@,
        JsonView::Object(
            property("string"@, "Single mode: what the agent should accomplish."@),
        ),
    );
    let properties = ordered::put(
        properties,
        "tasks"@,
        JsonView::Object(
            ordered::put(
                property(
                    "array"@,
                    "Parallel mode: tasks run concurrently, auto-wrapped into a fork."@,
                ),
                "items"@,
                task_schema(),
            ),
        ),
    );
    let properties = ordered::put(
        properties,
        "flow"@,
        JsonView::Object(
            property(
                "object"@,
                "Graph mode: an inline flow spec. Node kinds: spawn {agent, task, output?}; sequence {steps:[...]}; fork {id, branches:{...}, concurrency?}; join {from, mode:\"all\"|\"any\"|\"quorum\", quorum?, reducer?, onFailure?}."@,
            ),
        ),
    );
    let properties = ordered::put(
        properties,
        "concurrency"@,
        JsonView::Object(
            property(
                "integer"@,
                "Max concurrent branches for parallel/fork mode (default 4)."@,
            ),
        ),
    );
    let properties = ordered::put(
        properties,
        "output"@,
        output_property(
            "Single mode: output typing for the one spawn. 'json' validates the reply as JSON."@,
        ),
    );
    JsonView::Object(
        ordered::put(
            ordered::put(Seq::empty(), "type"@, JsonView::Text("object"@)),
            "properties"@,
            JsonView::Object(properties),
        ),
    )
}

fn object(map: SortedMap<Json>) -> (value: Json)
    ensures
        value@ == JsonView::Object(json::fields(map)),
{
    let value = Json::Object(map);
    proof {
        value.lemma_view();
    }
    value
}

fn two_texts(a: &str, b: &str) -> (value: Json)
    ensures
        value@ == JsonView::Array(seq![JsonView::Text(a@), JsonView::Text(b@)]),
{
    let mut items: Vec<Json> = Vec::new();
    items.push(Json::text(a));
    items.push(Json::text(b));
    let value = Json::Array(items);
    proof {
        value.lemma_view();
        assert(json::elements(items@) =~= seq![JsonView::Text(a@), JsonView::Text(b@)]);
    }
    value
}

fn describe(kind: &str, description: &str) -> (map: SortedMap<Json>)
    ensures
        json::fields(map) == property(kind@, description@),
{
    let mut map: SortedMap<Json> = SortedMap::new();
    assert(json::fields(map) =~= Seq::empty());
    json::set_field(&mut map, "type".to_owned(), Json::text(kind));
    json::set_field(&mut map, "description".to_owned(), Json::text(description));
    map
}

fn describe_output(description: &str) -> (value: Json)
    ensures
        value@ == output_property(description@),
{
    let mut map = describe("string", description);
    json::set_field(&mut map, "enum".to_owned(), two_texts("text", "json"));
    object(map)
}

fn describe_task() -> (value: Json)
    ensures
        value@ == task_schema(),
{
    let mut properties: SortedMap<Json> = SortedMap::new();
    assert(json::fields(properties) =~= Seq::empty());
    json::set_field(
        &mut properties,
        "agent".to_owned(),
        object(describe("string", "Agent name.")),
    );
    json::set_field(
        &mut properties,
        "task".to_owned(),
        object(describe("string", "Task description.")),
    );
    json::set_field(&mut properties, "output".to_owned(), describe_output("Output typing."));
    let mut map: SortedMap<Json> = SortedMap::new();
    assert(json::fields(map) =~= Seq::empty());
    json::set_field(&mut map, "type".to_owned(), Json::text("object"));
    json::set_field(&mut map, "properties".to_owned(), object(properties));
    json::set_field(&mut map, "required".to_owned(), two_texts("agent", "task"));
    object(map)
}

fn describe_arguments() -> (value: Json)
    ensures
        value@ == schema(),
{
    let mut properties: SortedMap<Json> = SortedMap::new();
    assert(json::fields(properties) =~= Seq::empty());
    json::set_field(
        &mut properties,
        "agent".to_owned(),
        object(
            describe(
                "string",
                "Single mode: the agent (display name or DB ID) to delegate to. Pair with 'task'.",
            ),
        ),
    );
    json::set_field(
        &mut properties,
        "task".to_owned(),
        object(describe("string", "Single mode: what the agent should accomplish.")),
    );
    let mut tasks = describe(
        "array",
        "Parallel mode: tasks run concurrently, auto-wrapped into a fork.",
    );
    json::set_field(&mut tasks, "items".to_owned(), describe_task());
    json::set_field(&mut properties, "tasks".to_owned(), object(tasks));
    json::set_field(
        &mut properties,
        "flow".to_owned(),
        object(
            describe(
                "object",
                "Graph mode: an inline flow spec. Node kinds: spawn {agent, task, output?}; sequence {steps:[...]}; fork {id, branches:{...}, concurrency?}; join {from, mode:\"all\"|\"any\"|\"quorum\", quorum?, reducer?, onFailure?}.",
            ),
        ),
    );
    json::set_field(
        &mut properties,
        "concurrency".to_owned(),
        object(
            describe(
                "integer",
                "Max concurrent branches for parallel/fork mode (default 4).",
            ),
        ),
    );
    json::set_field(
        &mut properties,
        "output".to_owned(),
        describe_output(
            "Single mode: output typing for the one spawn. 'json' validates the reply as JSON.",
        ),
    );
    let mut map: SortedMap<Json> = SortedMap::new();
    assert(json::fields(map) =~= Seq::empty());
    json::set_field(&mut map, "type".to_owned(), Json::text("object"));
    json::set_field(&mut map, "properties".to_owned(), object(properties));
    object(map)
}

impl<D> WorkflowTool<D> {
    /// What an agent is told of the tool.
    pub fn descriptor(&self) -> (descriptor: ToolDescriptor)
        ensures
            descriptor.name@ == "workflow"@,
            descriptor.description@
                == "Delegate work to other agents on this Peer, composed as a graph. Modes: single ({agent, task}); parallel ({tasks: [{agent, task}, ...], concurrency: N}); or an inline flow graph ({flow: {kind: \"sequence\"|\"fork\"|\"join\", ...}}). A sequence threads each step's output into the next via the {previous} placeholder; a fork fans out its branches concurrently (Semaphore-capped) and collects them into {branches, errors}; a join folds a fork's results, optionally through a reducer agent. Per-spawn output: \"text\" (default) or \"json\" (reply parsed + validated). Schema-compatible with pi-orchestrator's workflow tool."@,
            descriptor.parameters@ == schema(),
    {
        ToolDescriptor {
            name: "workflow".to_owned(),
            description: "Delegate work to other agents on this Peer, composed as a graph. Modes: single ({agent, task}); parallel ({tasks: [{agent, task}, ...], concurrency: N}); or an inline flow graph ({flow: {kind: \"sequence\"|\"fork\"|\"join\", ...}}). A sequence threads each step's output into the next via the {previous} placeholder; a fork fans out its branches concurrently (Semaphore-capped) and collects them into {branches, errors}; a join folds a fork's results, optionally through a reducer agent. Per-spawn output: \"text\" (default) or \"json\" (reply parsed + validated). Schema-compatible with pi-orchestrator's workflow tool.".to_owned(),
            parameters: describe_arguments(),
        }
    }

    /// The conditions under which the tool runs unless configured otherwise.
    /// Delegation is of medium risk, and a fan-out can run long.
    pub fn default_policy(&self) -> (policy: ToolPolicy)
        ensures
            policy == (ToolPolicy {
                risk: RiskLevel::Medium,
                approval: ApprovalRequirement::UnlessAutoApproved,
                timeout: 600,
            }),
    {
        ToolPolicy {
            risk: RiskLevel::Medium,
            approval: ApprovalRequirement::UnlessAutoApproved,
            timeout: 600,
        }
    }
}

// ---------------------------------------------------------------------------
// Laws
// ---------------------------------------------------------------------------

/// Every task of a list has a branch of its own, which holds what the task says.
pub proof fn lemma_every_task_has_a_branch(tasks: Seq<JsonView>, n: nat, i: int)
    requires
        0 <= i < n <= tasks.len(),
    ensures
        task_branches(tasks, n) matches Ok(branches) ==> {
            &&& text_member(tasks[i], "agent"@) is Some
            &&& text_member(tasks[i], "task"@) is Some
            &&& ordered::lookup(branches, task_key(i)) == Some(
                task_node(
                    text_member(tasks[i], "agent"@)->0,
                    text_member(tasks[i], "task"@)->0,
                    tasks[i].member("output"@),
                ),
            )
        },
    decreases n,
{
    broadcast use ordered::lemma_lookup_put;

    if i < n - 1 {
        lemma_every_task_has_a_branch(tasks, (n - 1) as nat, i);
        if task_key(i) == task_key(n - 1) {
            lemma_key_injective(i, n - 1);
        }
    }
}

/// Tasks at different positions have different branch keys.
pub proof fn lemma_key_injective(i: int, j: int)
    requires
        i >= 0,
        j >= 0,
        task_key(i) == task_key(j),
    ensures
        i == j,
{
    let head = "task-"@;
    assert(task_key(i).skip(head.len() as int) =~= text::decimal_text(i as nat));
    assert(task_key(j).skip(head.len() as int) =~= text::decimal_text(j as nat));
    text::lemma_decimal_injective(i as nat, j as nat);
}

/// One task for one agent runs as that one spawn, with the output mode that is asked
/// for, if any: where agent and task are more than white space, the flow is the spawn.
pub proof fn lemma_one_task_is_one_spawn(
    arguments: JsonView,
    agent: Seq<char>,
    task: Seq<char>,
    output: Option<OutputMode>,
)
    requires
        !(arguments.member("tasks"@) matches Some(JsonView::Array(_))),
        arguments.member("flow"@) is None,
        codec::decoded_output(codec::given(arguments.member("output"@))) == Ok::<
            Option<OutputMode>,
            Seq<char>,
        >(output),
        text_member(arguments, "agent"@) == Some(agent),
        text_member(arguments, "task"@) == Some(task),
        !text::blank(agent),
        !text::blank(task),
    ensures
        prepared(arguments) == Ok::<FlowView, Fault>(
            FlowView::Spawn(
                SpawnView { id: None, label: None, agent, task, cwd: None, output },
            ),
        ),
{
    let asked = arguments.member("output"@);
    let s = SpawnView { id: None, label: None, agent, task, cwd: None, output };
    let node = canonical::spawn_shape(None, None, agent, task, None, asked);
    canonical::lemma_marks();
    canonical::lemma_spawn_shape(None, None, agent, task, None, asked);
    assert(resolved(arguments) == Ok::<JsonView, Seq<char>>(node));
    assert(normalize::lowered(node, "flow"@, normalize::no_defaults()) == Ok::<
        JsonView,
        Seq<char>,
    >(node));
    codec::lemma_spawn_reads(node, s);
    references::lemma_checked_flows_are_in_order(FlowView::Spawn(s));
}

/// The spawn of one task.
pub open spec fn task_flow(item: JsonView, output: Option<OutputMode>) -> FlowView {
    FlowView::Spawn(
        SpawnView {
            id: None,
            label: None,
            agent: text_member(item, "agent"@)->0,
            task: text_member(item, "task"@)->0,
            cwd: None,
            output,
        },
    )
}

/// The spawns of the first `n` tasks, by branch key.
pub open spec fn task_flows(
    tasks: Seq<JsonView>,
    outputs: Seq<Option<OutputMode>>,
    n: nat,
) -> Seq<(Seq<char>, FlowView)>
    decreases n,
{
    if n == 0 || n > tasks.len() {
        Seq::empty()
    } else {
        ordered::put(
            task_flows(tasks, outputs, (n - 1) as nat),
            task_key(n - 1),
            task_flow(tasks[n - 1], outputs[n - 1]),
        )
    }
}

/// A task that can be run: agent and task are more than white space, and the output
/// mode that it asks for, if any, is the one given.
pub open spec fn runnable(item: JsonView, output: Option<OutputMode>) -> bool {
    &&& text_member(item, "agent"@) matches Some(agent) && !text::blank(agent)
    &&& text_member(item, "task"@) matches Some(task) && !text::blank(task)
    &&& codec::decoded_output(codec::given(item.member("output"@))) == Ok::<
        Option<OutputMode>,
        Seq<char>,
    >(output)
}

/// The cap that a value asks for: the integer that it is, and none otherwise.
pub open spec fn asked_cap(value: Option<JsonView>) -> Option<u64> {
    match value {
        Some(value) => value.as_u64(),
        None => None,
    }
}

/// A list of tasks runs as one fork with a spawn for each of them, under the cap that
/// is asked for, if any.
pub proof fn lemma_tasks_are_one_fork(
    arguments: JsonView,
    tasks: Seq<JsonView>,
    outputs: Seq<Option<OutputMode>>,
    concurrency: Option<usize>,
)
    requires
        arguments.member("tasks"@) == Some(JsonView::Array(tasks)),
        match asked_cap(arguments.member("concurrency"@)) {
            Some(n) => concurrency matches Some(cap) && cap == n,
            None => concurrency is None,
        },
        tasks.len() > 0,
        outputs.len() == tasks.len(),
        forall|i: int| 0 <= i < tasks.len() ==> runnable(#[trigger] tasks[i], outputs[i]),
    ensures
        prepared(arguments) == Ok::<FlowView, Fault>(
            FlowView::Fork(
                ForkView {
                    id: "tasks"@,
                    label: None,
                    branches: task_flows(tasks, outputs, tasks.len()),
                    concurrency,
                },
            ),
        ),
{
    let n = tasks.len();
    let pairs = task_pairs(tasks, outputs, n);
    let nodes = ordered::mapped(pairs, node_of());
    let flows = ordered::mapped(pairs, flow_of());
    let k = ForkView { id: "tasks"@, label: None, branches: flows, concurrency };
    let asked = arguments.member("concurrency"@);
    let raw = canonical::fork_shape("tasks"@, None, asked, nodes);
    let cap = normalize::given_count(raw->Object_0, "concurrency"@);
    let node = canonical::fork_shape("tasks"@, None, cap, nodes);
    lemma_task_pairs(tasks, outputs, n);
    canonical::lemma_marks();
    canonical::lemma_fork_shape("tasks"@, None, asked, nodes);
    canonical::lemma_fork_shape("tasks"@, None, cap, nodes);
    assert(resolved(arguments) == Ok::<JsonView, Seq<char>>(raw));
    lemma_pairs_are_kept(pairs, raw->Object_0, pairs.len());
    assert(nodes.take(pairs.len() as int) =~= nodes);
    assert(normalize::lowered(raw, "flow"@, normalize::no_defaults()) == Ok::<
        JsonView,
        Seq<char>,
    >(node));
    lemma_pairs_are_read(pairs, pairs.len());
    assert(flows.take(pairs.len() as int) =~= flows);
    codec::lemma_fork_reads(node, k);
    assert(codec::decoded(node, false) == Ok::<FlowView, Seq<char>>(FlowView::Fork(k)));
    assert forall|i: int| 0 <= i < flows.len() implies plain_spawn((#[trigger] flows[i]).1) by {
        assert(matched(pairs[i].1));
    }
    lemma_plain_branches(flows, flows.len());
    references::lemma_checked_flows_are_in_order(FlowView::Fork(k));
    assert(references::named(FlowView::Fork(k), "flow"@) =~= seq![
        ("flow"@, "tasks"@, FlowView::Fork(k).kind()),
    ]);
}

spec fn node_of() -> spec_fn((JsonView, FlowView)) -> JsonView {
    |pair: (JsonView, FlowView)| pair.0
}

spec fn flow_of() -> spec_fn((JsonView, FlowView)) -> FlowView {
    |pair: (JsonView, FlowView)| pair.1
}

/// The nodes of the first `n` tasks, each with the spawn that it denotes, by branch
/// key.
spec fn task_pairs(tasks: Seq<JsonView>, outputs: Seq<Option<OutputMode>>, n: nat) -> Seq<
    (Seq<char>, (JsonView, FlowView)),
>
    decreases n,
{
    if n == 0 || n > tasks.len() {
        Seq::empty()
    } else {
        ordered::put(
            task_pairs(tasks, outputs, (n - 1) as nat),
            task_key(n - 1),
            (
                task_node(
                    text_member(tasks[n - 1], "agent"@)->0,
                    text_member(tasks[n - 1], "task"@)->0,
                    tasks[n - 1].member("output"@),
                ),
                task_flow(tasks[n - 1], outputs[n - 1]),
            ),
        )
    }
}

/// A node of a task, and the spawn that it denotes.
spec fn matched(pair: (JsonView, FlowView)) -> bool {
    &&& plain_spawn(pair.1)
    &&& pair.1->Spawn_0.label is None
    &&& pair.1->Spawn_0.cwd is None
    &&& pair.0 == task_node(
        pair.1->Spawn_0.agent,
        pair.1->Spawn_0.task,
        pair.0.member("output"@),
    )
    &&& codec::decoded_output(codec::given(pair.0.member("output"@))) == Ok::<
        Option<OutputMode>,
        Seq<char>,
    >(pair.1->Spawn_0.output)
}

proof fn lemma_task_pairs(tasks: Seq<JsonView>, outputs: Seq<Option<OutputMode>>, n: nat)
    requires
        n <= tasks.len(),
        outputs.len() == tasks.len(),
        forall|i: int| 0 <= i < tasks.len() ==> runnable(#[trigger] tasks[i], outputs[i]),
    ensures
        task_branches(tasks, n) == Ok::<Seq<(Seq<char>, JsonView)>, Seq<char>>(
            ordered::mapped(task_pairs(tasks, outputs, n), node_of()),
        ),
        task_flows(tasks, outputs, n) == ordered::mapped(
            task_pairs(tasks, outputs, n),
            flow_of(),
        ),
        forall|i: int|
            0 <= i < task_pairs(tasks, outputs, n).len() ==> matched(
                (#[trigger] task_pairs(tasks, outputs, n)[i]).1,
            ),
        n > 0 ==> task_pairs(tasks, outputs, n).len() > 0,
    decreases n,
{
    let after = task_pairs(tasks, outputs, n);
    if n == 0 {
        assert(ordered::mapped(after, node_of()) =~= Seq::empty());
        assert(ordered::mapped(after, flow_of()) =~= Seq::empty());
    } else {
        let before = task_pairs(tasks, outputs, (n - 1) as nat);
        let item = tasks[n - 1];
        let agent = text_member(item, "agent"@)->0;
        let task = text_member(item, "task"@)->0;
        let pair = (
            task_node(agent, task, item.member("output"@)),
            task_flow(item, outputs[n - 1]),
        );
        lemma_task_pairs(tasks, outputs, (n - 1) as nat);
        assert(runnable(item, outputs[n - 1]));
        canonical::lemma_spawn_shape(None, None, agent, task, None, item.member("output"@));
        assert(matched(pair));
        ordered::lemma_put_mapped(before, node_of(), task_key(n - 1), pair);
        ordered::lemma_put_mapped(before, flow_of(), task_key(n - 1), pair);
        ordered::lemma_put_all(
            before,
            task_key(n - 1),
            pair,
            |pair: (JsonView, FlowView)| matched(pair),
        );
        assert forall|i: int| 0 <= i < after.len() implies matched((#[trigger] after[i]).1) by {
            assert((|pair: (JsonView, FlowView)| matched(pair))(after[i].1));
        }
    }
}

proof fn lemma_pairs_are_kept(
    pairs: Seq<(Seq<char>, (JsonView, FlowView))>,
    fork: Seq<(Seq<char>, JsonView)>,
    n: nat,
)
    requires
        n <= pairs.len(),
        ordered::lookup(fork, "cwd"@) is None,
        ordered::lookup(fork, "output"@) is None,
        forall|i: int| 0 <= i < pairs.len() ==> matched((#[trigger] pairs[i]).1),
    ensures
        normalize::lowered_branches(
            JsonView::Object(ordered::mapped(pairs, node_of())),
            "flow"@,
            fork,
            n,
        ) == Ok::<Seq<(Seq<char>, JsonView)>, Seq<char>>(
            ordered::mapped(pairs, node_of()).take(n as int),
        ),
    decreases n,
{
    let nodes = ordered::mapped(pairs, node_of());
    if n == 0 {
        assert(nodes.take(0) =~= Seq::empty());
    } else {
        lemma_pairs_are_kept(pairs, fork, (n - 1) as nat);
        let (node, flow) = pairs[n - 1].1;
        assert(matched((node, flow)));
        let s = flow->Spawn_0;
        canonical::lemma_marks();
        canonical::lemma_spawn_shape(None, None, s.agent, s.task, None, node.member("output"@));
        let key = pairs[n - 1].0;
        assert(nodes[n - 1] == (key, node));
        assert(normalize::lowered(
            node,
            normalize::branch_label("flow"@, key),
            normalize::handed_down(fork, key),
        ) == Ok::<JsonView, Seq<char>>(node));
        assert(nodes.take(n - 1).push(nodes[n - 1]) =~= nodes.take(n as int));
    }
}

proof fn lemma_pairs_are_read(pairs: Seq<(Seq<char>, (JsonView, FlowView))>, n: nat)
    requires
        n <= pairs.len(),
        forall|i: int| 0 <= i < pairs.len() ==> matched((#[trigger] pairs[i]).1),
    ensures
        codec::decoded_branches(JsonView::Object(ordered::mapped(pairs, node_of())), n) == Ok::<
            Seq<(Seq<char>, FlowView)>,
            Seq<char>,
        >(ordered::mapped(pairs, flow_of()).take(n as int)),
    decreases n,
{
    let flows = ordered::mapped(pairs, flow_of());
    if n == 0 {
        assert(flows.take(0) =~= Seq::empty());
    } else {
        lemma_pairs_are_read(pairs, (n - 1) as nat);
        let (node, flow) = pairs[n - 1].1;
        assert(matched((node, flow)));
        let s = flow->Spawn_0;
        canonical::lemma_marks();
        canonical::lemma_spawn_shape(None, None, s.agent, s.task, None, node.member("output"@));
        codec::lemma_spawn_reads(node, s);
        assert(ordered::mapped(pairs, node_of())[n - 1] == (pairs[n - 1].0, node));
        assert(flows[n - 1] == (pairs[n - 1].0, flow));
        assert(codec::decoded(node, true) == Ok::<FlowView, Seq<char>>(flow));
        assert(flows.take(n - 1).push(flows[n - 1]) =~= flows.take(n as int));
    }
}

/// A spawn without an id whose agent and task are more than white space.
spec fn plain_spawn(f: FlowView) -> bool {
    f matches FlowView::Spawn(s) && s.id is None && !text::blank(s.agent) && !text::blank(s.task)
}

proof fn lemma_plain_branches(branches: Seq<(Seq<char>, FlowView)>, n: nat)
    requires
        n <= branches.len(),
        forall|i: int| 0 <= i < branches.len() ==> plain_spawn((#[trigger] branches[i]).1),
    ensures
        references::named_branches(branches, "flow"@, n) == Seq::<
            (Seq<char>, Seq<char>, NodeKind),
        >::empty(),
        references::placed_branches(branches, "flow"@, Seq::empty(), n) == Seq::<
            (Seq<char>, JoinView, Seq<Seq<char>>),
        >::empty(),
    decreases n,
{
    if n > 0 {
        lemma_plain_branches(branches, (n - 1) as nat);
        assert(plain_spawn(branches[n - 1].1));
        let at = normalize::branch_label("flow"@, branches[n - 1].0);
        assert(references::named(branches[n - 1].1, at) =~= Seq::empty());
        assert(references::placed(branches[n - 1].1, at, Seq::empty()) =~= Seq::empty());
    }
}

} // verus!
