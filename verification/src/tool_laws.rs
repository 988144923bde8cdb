//! What the `workflow` tool makes of its arguments and of the outcome of a flow, and how
//! the startup of a server goes.

use std::sync::Arc;
use vstd::prelude::*;
use vstd::string::*;
use crate::canonical;
use crate::codec;
use crate::executor;
use crate::executor::{Fault, State};
use crate::extension;
use crate::extension::{McpAction, McpEvent, McpStartup};
use crate::flow::FlowView;
use crate::json;
use crate::json::JsonView;
use crate::normalize;
use crate::normalize::DefaultsView;
use crate::ordered;
use crate::parse;
use crate::references;
use crate::text;
use crate::workflow;
use crate::workflow::ToolStep;

verus! {

broadcast use vstd::string::group_string_axioms;

// ---------------------------------------------------------------------------
// Parsing
// ---------------------------------------------------------------------------

/// Parsing gives the flow that the lowered value denotes, where its references are in
/// order. A value that cannot be lowered, or a flow whose references are not in order, is
/// refused for that reason; a lowered value that denotes no flow is so with the reason
/// behind a heading.
pub proof fn lemma_parsing_goes_in_three_steps(raw: JsonView)
    ensures
        ({
            let lowered = normalize::lowered(
                raw,
                "flow"@,
                DefaultsView {
                    agent: None,
                    task_template: None,
                    cwd: None,
                    output: None,
                    branch_key: None,
                },
            );
            let read = codec::decoded(lowered->Ok_0, false);
            let checked = references::checked(read->Ok_0);
            &&& lowered matches Err(message) ==> parse::parsed(raw) == Err::<FlowView, Seq<char>>(
                message,
            )
            &&& lowered is Ok ==> (read matches Err(message) ==> parse::parsed(raw) == Err::<
                FlowView,
                Seq<char>,
            >("invalid flow spec: "@ + message))
            &&& lowered is Ok && read is Ok ==> (checked matches Err(message) ==> parse::parsed(raw)
                == Err::<FlowView, Seq<char>>(message))
            &&& lowered is Ok && read is Ok && checked is Ok ==> parse::parsed(raw) == Ok::<
                FlowView,
                Seq<char>,
            >(read->Ok_0)
        }),
{
}

// ---------------------------------------------------------------------------
// Arguments
// ---------------------------------------------------------------------------

/// What an object holds under a key; nothing for any other value.
pub open spec fn under(value: JsonView, key: Seq<char>) -> Option<JsonView> {
    match value {
        JsonView::Object(entries) => ordered::lookup(entries, key),
        _ => None,
    }
}

/// A value is the plain spawn node of a task: kind, agent, task, the output given, and
/// nothing else.
pub open spec fn is_plain_spawn(
    node: JsonView,
    agent: Seq<char>,
    task: Seq<char>,
    output: Option<JsonView>,
) -> bool {
    &&& node is Object
    &&& under(node, "kind"@) == Some(JsonView::Text("spawn"@))
    &&& under(node, "agent"@) == Some(JsonView::Text(agent))
    &&& under(node, "task"@) == Some(JsonView::Text(task))
    &&& under(node, "output"@) == output
    &&& forall|key: Seq<char>|
        key != "kind"@ && key != "agent"@ && key != "task"@ && key != "output"@ ==> (
        #[trigger] under(node, key)) is None
}

/// Without a list of tasks, an explicit flow is taken as it is, unless it is a name, and
/// then nothing else counts; without a flow, agent and task make a spawn, and are both
/// needed.
pub proof fn lemma_arguments_without_tasks(arguments: JsonView)
    requires
        !(under(arguments, "tasks"@) matches Some(JsonView::Array(_))),
    ensures
        ({
            let result = workflow::resolved(arguments);
            match under(arguments, "flow"@) {
                Some(JsonView::Text(_)) => result == Err::<JsonView, Seq<char>>(
                    "named flows (flow: \"<name>\") are a Phase 2 feature; pass an inline flow object."@,
                ),
                Some(flow) => result == Ok::<JsonView, Seq<char>>(flow),
                None => match (under(arguments, "agent"@), under(arguments, "task"@)) {
                    (Some(JsonView::Text(agent)), Some(JsonView::Text(task))) => {
                        &&& result matches Ok(node)
                        &&& is_plain_spawn(node, agent, task, under(arguments, "output"@))
                    },
                    _ => result == Err::<JsonView, Seq<char>>(
                        "Either 'flow', 'tasks', or both 'agent' and 'task' are required."@,
                    ),
                },
            }
        }),
{
    broadcast use ordered::lemma_lookup_put;

    canonical::lemma_marks();
    assert(forall|key: Seq<char>|
        ordered::lookup(Seq::<(Seq<char>, JsonView)>::empty(), key) is None);
}

/// A list of tasks comes before everything else. An empty one is refused, and one of which
/// a task lacks its agent or its task names the first such. Any other is a fork `tasks`
/// with a spawn for each task, under a key with the task's number, and with the cap as it
/// is given.
pub proof fn lemma_arguments_with_tasks(arguments: JsonView, tasks: Seq<JsonView>)
    requires
        under(arguments, "tasks"@) == Some(JsonView::Array(tasks)),
    ensures
        ({
            let result = workflow::resolved(arguments);
            let complete = |i: int|
                under(tasks[i], "agent"@) is Some && under(tasks[i], "agent"@)->0 is Text && under(
                    tasks[i],
                    "task"@,
                ) is Some && under(tasks[i], "task"@)->0 is Text;
            match result {
                Err(message) => tasks.len() == 0 && message
                    == "'tasks' was empty — provide at least one {agent, task}."@ || exists|i: int|
                    {
                        &&& 0 <= i < tasks.len()
                        &&& !#[trigger] complete(i)
                        &&& forall|j: int| 0 <= j < i ==> #[trigger] complete(j)
                        &&& message == "tasks["@ + text::decimal_text(i as nat)
                            + "] needs both 'agent' and 'task'."@
                    },
                Ok(node) => {
                    &&& tasks.len() > 0
                    &&& node is Object
                    &&& under(node, "kind"@) == Some(JsonView::Text("fork"@))
                    &&& under(node, "id"@) == Some(JsonView::Text("tasks"@))
                    &&& under(node, "concurrency"@) == under(arguments, "concurrency"@)
                    &&& under(node, "branches"@) matches Some(JsonView::Object(branches))
                    &&& branches.len() == tasks.len()
                    &&& forall|i: int|
                        0 <= i < tasks.len() ==> {
                            &&& #[trigger] complete(i)
                            &&& ordered::lookup(
                                branches,
                                "task-"@ + text::decimal_text(i as nat),
                            ) matches Some(branch)
                            &&& is_plain_spawn(
                                branch,
                                under(tasks[i], "agent"@)->0->Text_0,
                                under(tasks[i], "task"@)->0->Text_0,
                                under(tasks[i], "output"@),
                            )
                        }
                    &&& forall|key: Seq<char>|
                        key != "kind"@ && key != "id"@ && key != "concurrency"@ && key
                            != "branches"@ ==> (#[trigger] under(node, key)) is None
                },
            }
        }),
{
    broadcast use ordered::lemma_lookup_put;

    canonical::lemma_marks();
    assert(forall|key: Seq<char>|
        ordered::lookup(Seq::<(Seq<char>, JsonView)>::empty(), key) is None);
    let complete = |i: int|
        under(tasks[i], "agent"@) is Some && under(tasks[i], "agent"@)->0 is Text && under(
            tasks[i],
            "task"@,
        ) is Some && under(tasks[i], "task"@)->0 is Text;
    lemma_tasks_in_turn(tasks, tasks.len());
    match workflow::task_branches(tasks, tasks.len()) {
        Ok(branches) => {
            assert forall|i: int| 0 <= i < tasks.len() implies {
                &&& #[trigger] complete(i)
                &&& ordered::lookup(branches, "task-"@ + text::decimal_text(i as nat)) is Some
                &&& is_plain_spawn(
                    ordered::lookup(branches, "task-"@ + text::decimal_text(i as nat))->0,
                    under(tasks[i], "agent"@)->0->Text_0,
                    under(tasks[i], "task"@)->0->Text_0,
                    under(tasks[i], "output"@),
                )
            } by {
                workflow::lemma_every_task_has_a_branch(tasks, tasks.len(), i);
                assert(workflow::task_key(i) == "task-"@ + text::decimal_text(i as nat));
            }
        },
        Err(message) => {
            let i = choose|i: int|
                {
                    &&& 0 <= i < tasks.len()
                    &&& #[trigger] lacks(tasks[i])
                    &&& forall|j: int| 0 <= j < i ==> !#[trigger] lacks(tasks[j])
                    &&& message == "tasks["@ + text::decimal_text(i as nat)
                        + "] needs both 'agent' and 'task'."@
                };
            if tasks.len() > 0 {
                assert(!complete(i));
                assert forall|j: int| 0 <= j < i implies #[trigger] complete(j) by {
                    assert(!lacks(tasks[j]));
                }
            }
        },
    }
}

spec fn lacks(item: JsonView) -> bool {
    workflow::text_member(item, "agent"@) is None || workflow::text_member(item, "task"@) is None
}

proof fn lemma_tasks_in_turn(tasks: Seq<JsonView>, n: nat)
    requires
        n <= tasks.len(),
    ensures
        match workflow::task_branches(tasks, n) {
            Ok(branches) => {
                &&& branches.len() == n
                &&& forall|k: int|
                    0 <= k < branches.len() ==> exists|i: int|
                        0 <= i < n && (#[trigger] branches[k]).0 == #[trigger] workflow::task_key(i)
                &&& forall|j: int| 0 <= j < n ==> !#[trigger] lacks(tasks[j])
            },
            Err(message) => exists|i: int|
                {
                    &&& 0 <= i < n
                    &&& #[trigger] lacks(tasks[i])
                    &&& forall|j: int| 0 <= j < i ==> !#[trigger] lacks(tasks[j])
                    &&& message == "tasks["@ + text::decimal_text(i as nat)
                        + "] needs both 'agent' and 'task'."@
                },
        },
    decreases n,
{
    if n > 0 {
        lemma_tasks_in_turn(tasks, (n - 1) as nat);
        match workflow::task_branches(tasks, (n - 1) as nat) {
            Ok(before) => {
                if lacks(tasks[n - 1]) {
                    let last = n - 1;
                    assert(lacks(tasks[last]));
                } else {
                    let item = tasks[n - 1];
                    let node = workflow::task_node(
                        workflow::text_member(item, "agent"@)->0,
                        workflow::text_member(item, "task"@)->0,
                        item.member("output"@),
                    );
                    let key = workflow::task_key(n - 1);
                    assert forall|k: int| 0 <= k < before.len() implies (#[trigger] before[k]).0
                        != key by {
                        let i = choose|i: int|
                            0 <= i < n - 1 && before[k].0 == #[trigger] workflow::task_key(i);
                        if workflow::task_key(i) == key {
                            workflow::lemma_key_injective(i, n - 1);
                        }
                    }
                    ordered::lemma_put_new(before, key, node);
                    let after = ordered::put(before, key, node);
                    assert forall|k: int| 0 <= k < after.len() implies exists|i: int|
                        0 <= i < n && (#[trigger] after[k]).0 == #[trigger] workflow::task_key(
                            i,
                        ) by {
                        if after[k].0 == key {
                            assert(after[k].0 == workflow::task_key(n - 1));
                        } else {
                            let b = choose|b: int|
                                0 <= b < before.len() && #[trigger] before[b] == after[k];
                            let i = choose|i: int|
                                0 <= i < n - 1 && before[b].0 == #[trigger] workflow::task_key(i);
                            assert(after[k].0 == workflow::task_key(i));
                        }
                    }
                }
            },
            Err(_) => {},
        }
    }
}

/// A call of the tool runs the flow that its arguments denote, parsed; what goes wrong
/// before is an error in the arguments.
pub proof fn lemma_bad_arguments_are_so_called(arguments: JsonView)
    ensures
        workflow::resolved(arguments) matches Err(message) ==> workflow::prepared(arguments) == Err::<
            FlowView,
            Fault,
        >(Fault::InvalidArgument(message)),
        workflow::resolved(arguments) matches Ok(raw) ==> {
            &&& parse::parsed(raw) matches Err(message) ==> workflow::prepared(arguments) == Err::<
                FlowView,
                Fault,
            >(Fault::InvalidArgument(message))
            &&& parse::parsed(raw) matches Ok(flow) ==> workflow::prepared(arguments) == Ok::<
                FlowView,
                Fault,
            >(flow)
        },
{
}

/// A call of the tool is answered with what the flow came to: a text as it is, anything
/// else rendered over several lines, and an error as it is. While the flow waits, exactly
/// its calls are asked for.
pub proof fn lemma_answers_are_what_the_flow_came_to(
    step: ToolStep,
    flow: FlowView,
    fault: Fault,
    log: Map<Seq<int>, Result<Seq<char>, Fault>>,
)
    ensures
        workflow::step_agrees(step, Err(fault), log) ==> (step matches ToolStep::Finished(
            Err(error),
        ) && error@ == fault),
        workflow::step_agrees(step, Ok(flow), log) ==> match executor::ran(
            flow,
            Seq::empty(),
            None,
            Seq::empty(),
            log,
        ).state {
            State::Done(JsonView::Text(text)) => step matches ToolStep::Finished(Ok(answer))
                && answer@ == text,
            State::Done(value) => step matches ToolStep::Finished(Ok(answer)) && answer@
                == json::pretty_json(value),
            State::Failed(fault) => step matches ToolStep::Finished(Err(error)) && error@ == fault,
            State::Waiting => step matches ToolStep::Pending(calls) && {
                let wanted = executor::ran(flow, Seq::empty(), None, Seq::empty(), log).calls;
                &&& calls@.len() == wanted.len()
                &&& forall|i: int|
                    0 <= i < wanted.len() ==> (#[trigger] calls@[i])@ == wanted[i]
            },
        },
{
    if workflow::step_agrees(step, Ok(flow), log) {
        match step {
            ToolStep::Pending(calls) => {
                let views = executor::call_views(calls@);
                assert(views.len() == calls@.len());
                assert forall|i: int| 0 <= i < calls@.len() implies (#[trigger] calls@[i])@
                    == views[i] by {}
            },
            _ => {},
        }
    }
}

/// `spawn_agent` is called with the agent and the task, and with nothing else.
pub proof fn lemma_spawn_arguments(agent: Seq<char>, task: Seq<char>)
    ensures
        under(workflow::spawn_shape(agent, task), "agent_ref"@) == Some(JsonView::Text(agent)),
        under(workflow::spawn_shape(agent, task), "task"@) == Some(JsonView::Text(task)),
        forall|key: Seq<char>|
            key != "agent_ref"@ && key != "task"@ ==> (#[trigger] under(
                workflow::spawn_shape(agent, task),
                key,
            )) is None,
{
    broadcast use ordered::lemma_lookup_put;

    reveal_strlit("agent_ref");
    reveal_strlit("task");
    assert("agent_ref"@.len() == 9 && "task"@.len() == 4);
    assert(forall|key: Seq<char>|
        ordered::lookup(Seq::<(Seq<char>, JsonView)>::empty(), key) is None);
}

/// A schema says what type a value has and what it is for.
pub open spec fn describes(
    value: Option<JsonView>,
    kind: Seq<char>,
    description: Seq<char>,
) -> bool {
    &&& value matches Some(schema)
    &&& under(schema, "type"@) == Some(JsonView::Text(kind))
    &&& under(schema, "description"@) == Some(JsonView::Text(description))
}

/// The tool's schema is an object with its six arguments.
pub proof fn lemma_schema_has_the_arguments()
    ensures
        under(workflow::schema(), "type"@) == Some(JsonView::Text("object"@)),
        under(workflow::schema(), "properties"@) is Some,
        ({
            let p = under(workflow::schema(), "properties"@)->0;
            &&& describes(
                under(p, "agent"@),
                "string"@,
                "Single mode: the agent (display name or DB ID) to delegate to. Pair with 'task'."@,
            )
            &&& describes(
                under(p, "task"@),
                "string"@,
                "Single mode: what the agent should accomplish."@,
            )
            &&& describes(
                under(p, "tasks"@),
                "array"@,
                "Parallel mode: tasks run concurrently, auto-wrapped into a fork."@,
            )
            &&& describes(
                under(p, "flow"@),
                "object"@,
                "Graph mode: an inline flow spec. Node kinds: spawn {agent, task, output?}; sequence {steps:[...]}; fork {id, branches:{...}, concurrency?}; join {from, mode:\"all\"|\"any\"|\"quorum\", quorum?, reducer?, onFailure?}."@,
            )
            &&& describes(
                under(p, "concurrency"@),
                "integer"@,
                "Max concurrent branches for parallel/fork mode (default 4)."@,
            )
            &&& describes(
                under(p, "output"@),
                "string"@,
                "Single mode: output typing for the one spawn. 'json' validates the reply as JSON."@,
            )
            &&& under(under(p, "output"@)->0, "enum"@) == Some(
                JsonView::Array(seq![JsonView::Text("text"@), JsonView::Text("json"@)]),
            )
            &&& forall|key: Seq<char>|
                key != "agent"@ && key != "task"@ && key != "tasks"@ && key != "flow"@ && key
                    != "concurrency"@ && key != "output"@ ==> (#[trigger] under(p, key)) is None
        }),
        forall|key: Seq<char>|
            key != "type"@ && key != "properties"@ ==> (#[trigger] under(
                workflow::schema(),
                key,
            )) is None,
{
    broadcast use ordered::lemma_lookup_put;

    canonical::lemma_marks();
    reveal_strlit("type");
    reveal_strlit("properties");
    reveal_strlit("description");
    reveal_strlit("enum");
    reveal_strlit("items");
    reveal_strlit("tasks");
    reveal_strlit("flow");
    assert(canonical::mark("type"@) == (116int, 121int, 4int));
    assert(canonical::mark("properties"@) == (112int, 114int, 10int));
    assert(canonical::mark("description"@) == (100int, 101int, 11int));
    assert(canonical::mark("enum"@) == (101int, 110int, 4int));
    assert(canonical::mark("items"@) == (105int, 116int, 5int));
    assert(canonical::mark("tasks"@) == (116int, 97int, 5int));
    assert(canonical::mark("flow"@) == (102int, 108int, 4int));
    assert(forall|key: Seq<char>|
        ordered::lookup(Seq::<(Seq<char>, JsonView)>::empty(), key) is None);
}

// ---------------------------------------------------------------------------
// The startup of a server
// ---------------------------------------------------------------------------

/// How the startup of a server goes on: one that came up is entered as running under its
/// name, then the tools for its capabilities are built, then it is asked for its tools. The
/// tools that it names are registered in their order, and behind them those for its
/// capabilities; where it could not be asked, the latter alone. All are owned by the
/// extension of the server. One that did not come up is entered as failed. What is heard
/// out of turn changes nothing.
pub proof fn lemma_startups_go_on<R, X, E>(
    server: Seq<char>,
    state: McpStartup<X>,
    event: McpEvent<R, X, E>,
    next: McpStartup<X>,
    action: McpAction<R, X, E>,
)
    requires
        extension::goes_on(server, state, event, next, action),
    ensures
        match (state, event) {
            (McpStartup::Starting, McpEvent::Started(running)) => next is Running && (
            action matches McpAction::RecordRunning(name, handle) && name@ == server && handle
                == running),
            (McpStartup::Starting, McpEvent::StartFailed(error)) => next is Settled && (
            action matches McpAction::RecordFailed(name, reason) && name@ == server && reason
                == error),
            (McpStartup::Running, McpEvent::Equipped(capabilities)) => next
                == McpStartup::Discovering(capabilities) && action is Discover,
            (McpStartup::Discovering(capabilities), McpEvent::Discovered(tools)) => next is Settled
                && (action matches McpAction::Register(entries) && {
                &&& entries@.len() == tools@.len() + capabilities@.len()
                &&& forall|i: int|
                    0 <= i < entries@.len() ==> (#[trigger] entries@[i]).owner@ == "mcp-"@ + server
                        && entries@[i].tool == if i < tools@.len() {
                        tools@[i]
                    } else {
                        capabilities@[i - tools@.len()]
                    }
            }),
            (McpStartup::Discovering(capabilities), McpEvent::DiscoveryFailed(_)) => next is Settled
                && (action matches McpAction::Register(entries) && {
                &&& entries@.len() == capabilities@.len()
                &&& forall|i: int|
                    0 <= i < entries@.len() ==> (#[trigger] entries@[i]).owner@ == "mcp-"@ + server
                        && entries@[i].tool == capabilities@[i]
            }),
            _ => next == state && action is Nothing,
        },
{
}

/// An instance gains exactly the tools that its server names when it is asked for them.
pub proof fn lemma_instances_gain_what_is_discovered<R, X, E>(
    state: McpStartup<X>,
    event: McpEvent<R, X, E>,
    tools: Seq<Arc<X>>,
)
    ensures
        (state is Discovering && event is Discovered) ==> extension::gained(state, event, tools)
            == tools + event->Discovered_0@,
        !(state is Discovering && event is Discovered) ==> extension::gained(state, event, tools)
            == tools,
{
}

} // verus!
