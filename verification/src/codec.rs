//! Flows as JSON: reading a canonical node into a [`FlowSpec`], and writing a
//! [`FlowSpec`] as its canonical node.
//!
//! A node is an object tagged by `kind`, or the same fields listed in order
//! behind the tag in an array. Unknown fields are ignored, and an optional field
//! may be absent or `null`. A choice is its name, or an object with the name as
//! its only key over `null` or an empty object.

use vstd::prelude::*;
use vstd::string::*;
use crate::canonical;
use crate::flow;
use crate::flow::{
    AgentReducer, AgentReducerView, FlowSpec, FlowView, ForkSpec, ForkView, JoinMode, JoinReducer,
    JoinSpec, JoinView, LoopSpec, LoopView, NodeKind, OnFailure, OutputMode, ReducerView,
    SequenceSpec, SequenceView, SpawnSpec, SpawnView,
};
use crate::json;
use crate::json::{Json, JsonNumber, JsonView, NumberView};
use crate::ordered;
use crate::ordered::SortedMap;
use crate::text;

verus! {

broadcast use vstd::string::group_string_axioms;

// ---------------------------------------------------------------------------
// Writing
// ---------------------------------------------------------------------------

/// The name of an output mode.
pub open spec fn output_name(mode: OutputMode) -> Seq<char> {
    match mode {
        OutputMode::Text => "text"@,
        OutputMode::Json => "json"@,
    }
}

/// The name of a join mode.
pub open spec fn mode_name(mode: JoinMode) -> Seq<char> {
    match mode {
        JoinMode::All => "all"@,
        JoinMode::Any => "any"@,
        JoinMode::Quorum => "quorum"@,
    }
}

/// The name of a failure policy.
pub open spec fn failure_name(policy: OnFailure) -> Seq<char> {
    match policy {
        OnFailure::FailFast => "failFast"@,
        OnFailure::CollectErrors => "collectErrors"@,
    }
}

/// A count as JSON.
pub open spec fn encoded_count(n: usize) -> JsonView {
    JsonView::Number(NumberView::Integer(n as int))
}

/// An optional output mode as JSON.
pub open spec fn encoded_output(output: Option<OutputMode>) -> Option<JsonView> {
    match output {
        Some(mode) => Some(JsonView::Text(output_name(mode))),
        None => None,
    }
}

/// A reducer as JSON.
pub open spec fn encoded_reducer(reducer: ReducerView) -> JsonView {
    match reducer {
        ReducerView::Collect => JsonView::Object(
            ordered::put(Seq::empty(), "kind"@, JsonView::Text("collect"@)),
        ),
        ReducerView::Agent(r) => {
            let entries = ordered::put(Seq::empty(), "kind"@, JsonView::Text("agent"@));
            let entries = ordered::put(entries, "agent"@, JsonView::Text(r.agent));
            let entries = ordered::put(entries, "task"@, JsonView::Text(r.task));
            JsonView::Object(ordered::put_given(entries, "output"@, encoded_output(r.output)))
        },
    }
}

/// A join as JSON.
pub open spec fn encoded_join(j: JoinView) -> JsonView {
    canonical::join_shape(
        j.id,
        j.label,
        Some(JsonView::Text(j.from)),
        Some(JsonView::Text(mode_name(j.mode))),
        match j.quorum {
            Some(n) => Some(encoded_count(n)),
            None => None,
        },
        match j.reducer {
            Some(reducer) => Some(encoded_reducer(reducer)),
            None => None,
        },
        match j.on_failure {
            Some(policy) => Some(JsonView::Text(failure_name(policy))),
            None => None,
        },
    )
}

/// A flow as JSON.
pub open spec fn encoded(f: FlowView) -> JsonView
    decreases f, 0nat,
{
    match f {
        FlowView::Spawn(s) => canonical::spawn_shape(
            s.id,
            s.label,
            s.agent,
            s.task,
            s.cwd,
            encoded_output(s.output),
        ),
        FlowView::Sequence(s) => canonical::sequence_shape(
            s.id,
            s.label,
            encoded_steps(s.steps, s.steps.len()),
        ),
        FlowView::Fork(k) => canonical::fork_shape(
            k.id,
            k.label,
            match k.concurrency {
                Some(n) => Some(encoded_count(n)),
                None => None,
            },
            encoded_branches(k.branches, k.branches.len()),
        ),
        FlowView::Join(j) => encoded_join(j),
        FlowView::Loop(l) => canonical::loop_shape(
            l.id,
            l.label,
            encoded(*l.body),
            Some(encoded_count(l.max_iterations)),
            l.continue_when,
        ),
    }
}

/// The first `n` flows of a list as JSON.
pub open spec fn encoded_steps(steps: Seq<FlowView>, n: nat) -> Seq<JsonView>
    decreases steps, n,
{
    if n == 0 || n > steps.len() {
        Seq::empty()
    } else {
        encoded_steps(steps, (n - 1) as nat).push(encoded(steps[n - 1]))
    }
}

/// The first `n` branches of a fork as JSON.
pub open spec fn encoded_branches(branches: Seq<(Seq<char>, FlowView)>, n: nat) -> Seq<
    (Seq<char>, JsonView),
>
    decreases branches, n,
{
    if n == 0 || n > branches.len() {
        Seq::empty()
    } else {
        proof {
            assert(decreases_to!(branches => branches[n - 1]));
            assert(decreases_to!(branches[n - 1] => branches[n - 1].1));
        }
        encoded_branches(branches, (n - 1) as nat).push(
            (branches[n - 1].0, encoded(branches[n - 1].1)),
        )
    }
}

/// Encoding goes element by element.
pub proof fn lemma_encoded_steps(steps: Seq<FlowView>, n: nat)
    requires
        n <= steps.len(),
    ensures
        encoded_steps(steps, n).len() == n,
        forall|i: int| 0 <= i < n ==> #[trigger] encoded_steps(steps, n)[i] == encoded(steps[i]),
    decreases n,
{
    if n > 0 {
        lemma_encoded_steps(steps, (n - 1) as nat);
    }
}

/// Encoding goes branch by branch.
pub proof fn lemma_encoded_branches(branches: Seq<(Seq<char>, FlowView)>, n: nat)
    requires
        n <= branches.len(),
    ensures
        encoded_branches(branches, n).len() == n,
        forall|i: int|
            0 <= i < n ==> #[trigger] encoded_branches(branches, n)[i] == (
                branches[i].0,
                encoded(branches[i].1),
            ),
    decreases n,
{
    if n > 0 {
        lemma_encoded_branches(branches, (n - 1) as nat);
    }
}

// ---------------------------------------------------------------------------
// Reading
// ---------------------------------------------------------------------------

/// What is said of a value where something else was expected.
pub open spec fn shown(value: JsonView) -> Seq<char> {
    match value {
        JsonView::Null => "null"@,
        JsonView::Bool(true) => "boolean `true`"@,
        JsonView::Bool(false) => "boolean `false`"@,
        JsonView::Number(NumberView::Integer(n)) => integer_shown(n),
        JsonView::Number(NumberView::Fraction(_)) => "floating point `"@ + json::compact_json(value)
            + "`"@,
        JsonView::Text(text) => "string "@ + text::debug_text(text),
        JsonView::Array(_) => "sequence"@,
        JsonView::Object(_) => "map"@,
    }
}

/// What is said of an integer where something else was expected.
pub open spec fn integer_shown(n: int) -> Seq<char> {
    "integer `"@ + text::integer_text(n) + "`"@
}

/// A value of the wrong type.
pub open spec fn wrong_type(value: JsonView, expected: Seq<char>) -> Seq<char> {
    "invalid type: "@ + shown(value) + ", expected "@ + expected
}

/// A value of the right type that is not allowed.
pub open spec fn wrong_value(value: Seq<char>, expected: Seq<char>) -> Seq<char> {
    "invalid value: "@ + value + ", expected "@ + expected
}

/// A name that is not one of those expected.
pub open spec fn unknown_variant(name: Seq<char>, expected: Seq<char>) -> Seq<char> {
    "unknown variant `"@ + name + "`, expected "@ + expected
}

/// A field that is not there.
pub open spec fn missing_field(name: Seq<char>) -> Seq<char> {
    "missing field `"@ + name + "`"@
}

/// A list of another length than expected.
pub open spec fn wrong_length(n: nat, expected: Seq<char>) -> Seq<char> {
    "invalid length "@ + text::decimal_text(n) + ", expected "@ + expected
}

/// What is wrong with a result.
pub open spec fn fault<T>(result: Result<T, Seq<char>>) -> Option<Seq<char>> {
    match result {
        Ok(_) => None,
        Err(message) => Some(message),
    }
}

/// What is wrong with a field that must be there: nothing was read for it.
pub open spec fn lack<T>(result: Result<Option<T>, Seq<char>>, name: Seq<char>) -> Option<
    Seq<char>,
> {
    match result {
        Ok(None) => Some(missing_field(name)),
        _ => None,
    }
}

/// What is wrong with field `i` of a node written as an array behind its tag.
pub open spec fn slot(
    items: Seq<JsonView>,
    i: int,
    expected: Seq<char>,
    own: Option<Seq<char>>,
) -> Option<Seq<char>> {
    if i + 1 < items.len() {
        own
    } else {
        Some(wrong_length(i as nat, expected))
    }
}

/// What is wrong with a node written as an array where it goes on behind its
/// `n` fields.
pub open spec fn surplus(items: Seq<JsonView>, n: int, expected: Seq<char>) -> Option<Seq<char>> {
    if items.len() > n + 1 {
        Some(wrong_length((items.len() - 1) as nat, expected))
    } else {
        None
    }
}

/// The first thing that is wrong.
pub open spec fn first(faults: Seq<Option<Seq<char>>>) -> Option<Seq<char>>
    decreases faults.len(),
{
    if faults.len() == 0 {
        None
    } else if faults[0] is Some {
        faults[0]
    } else {
        first(faults.drop_first())
    }
}

/// Nothing is wrong exactly when no fault is listed.
pub proof fn lemma_first(faults: Seq<Option<Seq<char>>>)
    ensures
        first(faults) is None <==> forall|i: int| 0 <= i < faults.len() ==> faults[i] is None,
    decreases faults.len(),
{
    if faults.len() > 0 {
        let rest = faults.drop_first();
        assert(forall|i: int| 0 <= i < rest.len() ==> rest[i] == faults[i + 1]);
        lemma_first(rest);
        if faults[0] is None {
            if first(faults) is None {
                assert forall|i: int| 0 <= i < faults.len() implies faults[i] is None by {
                    if i > 0 {
                        assert(rest[i - 1] is None);
                    }
                }
            } else {
                let k = choose|k: int| 0 <= k < rest.len() && !(rest[k] is None);
                assert(faults[k + 1] is Some);
            }
        }
    }
}

/// The tag of a node.
pub open spec fn tag(node: JsonView) -> Option<JsonView> {
    match node {
        JsonView::Object(entries) => ordered::lookup(entries, "kind"@),
        JsonView::Array(items) => if items.len() > 0 {
            Some(items[0])
        } else {
            None
        },
        _ => None,
    }
}

/// The field `name` of a node, which is field `i` of one written as an array.
pub open spec fn part(node: JsonView, i: int, name: Seq<char>) -> Option<JsonView> {
    match node {
        JsonView::Object(entries) => ordered::lookup(entries, name),
        JsonView::Array(items) => if 0 <= i && i + 1 < items.len() {
            Some(items[i + 1])
        } else {
            None
        },
        _ => None,
    }
}

/// A field is smaller than its node.
pub proof fn lemma_part_smaller(node: JsonView, i: int, name: Seq<char>)
    ensures
        part(node, i, name) matches Some(value) ==> decreases_to!(node => value),
{
    match node {
        JsonView::Object(entries) => {
            json::lemma_member_smaller(node, name);
        },
        JsonView::Array(items) => {
            if 0 <= i && i + 1 < items.len() {
                json::lemma_element_smaller(node, i + 1);
            }
        },
        _ => {},
    }
}

/// The names of the kinds.
pub open spec fn kind_names() -> Seq<char> {
    "one of `spawn`, `sequence`, `fork`, `join`, `loop`"@
}

/// The kind of a node. Inside another node the tag may also be the position of the
/// kind in the list of kinds.
pub open spec fn node_kind(node: JsonView, nested: bool) -> Result<NodeKind, Seq<char>> {
    if !(node is Object) && !(node is Array) {
        Err(wrong_type(node, "internally tagged enum FlowSpec"@))
    } else {
        match tag(node) {
            None => Err(missing_field("kind"@)),
            Some(JsonView::Text(name)) => if name == "spawn"@ {
                Ok(NodeKind::Spawn)
            } else if name == "sequence"@ {
                Ok(NodeKind::Sequence)
            } else if name == "fork"@ {
                Ok(NodeKind::Fork)
            } else if name == "join"@ {
                Ok(NodeKind::Join)
            } else if name == "loop"@ {
                Ok(NodeKind::Loop)
            } else {
                Err(unknown_variant(name, kind_names()))
            },
            Some(JsonView::Number(NumberView::Integer(n))) if nested && n >= 0 => if n == 0 {
                Ok(NodeKind::Spawn)
            } else if n == 1 {
                Ok(NodeKind::Sequence)
            } else if n == 2 {
                Ok(NodeKind::Fork)
            } else if n == 3 {
                Ok(NodeKind::Join)
            } else if n == 4 {
                Ok(NodeKind::Loop)
            } else {
                Err(wrong_value(integer_shown(n), "variant index 0 <= i < 5"@))
            },
            Some(other) => Err(wrong_type(other, "variant identifier"@)),
        }
    }
}

/// The value of an optional field; `null` is no value.
pub open spec fn given(value: Option<JsonView>) -> Option<JsonView> {
    match value {
        Some(JsonView::Null) => None,
        other => other,
    }
}

/// A text, if there is a value.
pub open spec fn decoded_text(value: Option<JsonView>) -> Result<Option<Seq<char>>, Seq<char>> {
    match value {
        None => Ok(None),
        Some(JsonView::Text(text)) => Ok(Some(text)),
        Some(other) => Err(wrong_type(other, "a string"@)),
    }
}

/// A count, if there is a value.
pub open spec fn decoded_count(value: Option<JsonView>) -> Result<Option<usize>, Seq<char>> {
    match value {
        None => Ok(None),
        Some(JsonView::Number(NumberView::Integer(n))) => if 0 <= n <= usize::MAX {
            Ok(Some(n as usize))
        } else {
            Err(wrong_value(integer_shown(n), "usize"@))
        },
        Some(other) => Err(wrong_type(other, "usize"@)),
    }
}

/// The name that a choice gives, and what it is chosen with, if anything.
pub open spec fn chosen(value: JsonView) -> Result<(Seq<char>, Option<JsonView>), Seq<char>> {
    match value {
        JsonView::Text(name) => Ok((name, None)),
        JsonView::Object(entries) => if entries.len() == 1 {
            Ok((entries[0].0, Some(entries[0].1)))
        } else {
            Err(wrong_value("map"@, "map with a single key"@))
        },
        other => Err(wrong_type(other, "string or map"@)),
    }
}

/// A choice is chosen with nothing: nothing at all, `null` or an empty object.
pub open spec fn alone<T>(content: Option<JsonView>, choice: T) -> Result<Option<T>, Seq<char>> {
    match content {
        None => Ok(Some(choice)),
        Some(JsonView::Null) => Ok(Some(choice)),
        Some(JsonView::Object(entries)) => if entries.len() == 0 {
            Ok(Some(choice))
        } else {
            Err(wrong_type(content->0, "unit"@))
        },
        Some(other) => Err(wrong_type(other, "unit"@)),
    }
}

/// An output mode, if there is a value.
pub open spec fn decoded_output(value: Option<JsonView>) -> Result<
    Option<OutputMode>,
    Seq<char>,
> {
    match value {
        None => Ok(None),
        Some(value) => match chosen(value) {
            Err(message) => Err(message),
            Ok((name, content)) => if name == "text"@ {
                alone(content, OutputMode::Text)
            } else if name == "json"@ {
                alone(content, OutputMode::Json)
            } else {
                Err(unknown_variant(name, "`text` or `json`"@))
            },
        },
    }
}

/// A join mode, if there is a value.
pub open spec fn decoded_mode(value: Option<JsonView>) -> Result<Option<JoinMode>, Seq<char>> {
    match value {
        None => Ok(None),
        Some(value) => match chosen(value) {
            Err(message) => Err(message),
            Ok((name, content)) => if name == "all"@ {
                alone(content, JoinMode::All)
            } else if name == "any"@ {
                alone(content, JoinMode::Any)
            } else if name == "quorum"@ {
                alone(content, JoinMode::Quorum)
            } else {
                Err(unknown_variant(name, "one of `all`, `any`, `quorum`"@))
            },
        },
    }
}

/// A failure policy, if there is a value.
pub open spec fn decoded_failure(value: Option<JsonView>) -> Result<
    Option<OnFailure>,
    Seq<char>,
> {
    match value {
        None => Ok(None),
        Some(value) => match chosen(value) {
            Err(message) => Err(message),
            Ok((name, content)) => if name == "failFast"@ {
                alone(content, OnFailure::FailFast)
            } else if name == "collectErrors"@ {
                alone(content, OnFailure::CollectErrors)
            } else {
                Err(unknown_variant(name, "`failFast` or `collectErrors`"@))
            },
        },
    }
}

/// Whether a reducer is an agent, by its tag.
pub open spec fn reducer_is_agent(node: JsonView) -> Result<bool, Seq<char>> {
    if !(node is Object) && !(node is Array) {
        Err(wrong_type(node, "internally tagged enum JoinReducer"@))
    } else {
        match tag(node) {
            None => Err(missing_field("kind"@)),
            Some(JsonView::Text(name)) => if name == "collect"@ {
                Ok(false)
            } else if name == "agent"@ {
                Ok(true)
            } else {
                Err(unknown_variant(name, "`collect` or `agent`"@))
            },
            Some(JsonView::Number(NumberView::Integer(n))) if n >= 0 => if n == 0 {
                Ok(false)
            } else if n == 1 {
                Ok(true)
            } else {
                Err(wrong_value(integer_shown(n), "variant index 0 <= i < 2"@))
            },
            Some(other) => Err(wrong_type(other, "variant identifier"@)),
        }
    }
}

/// What may be wrong with a reducing agent, in the order in which it is reported.
pub open spec fn agent_faults(node: JsonView) -> Seq<Option<Seq<char>>> {
    let agent = decoded_text(part(node, 0, "agent"@));
    let task = decoded_text(part(node, 1, "task"@));
    let output = decoded_output(given(part(node, 2, "output"@)));
    let expected = "struct AgentReducer with 3 elements"@;
    match node {
        JsonView::Array(items) => seq![
            slot(items, 0, expected, fault(agent)),
            slot(items, 1, expected, fault(task)),
            slot(items, 2, expected, fault(output)),
            surplus(items, 3, "3 elements in sequence"@),
        ],
        _ => seq![
            fault(agent),
            fault(output),
            fault(task),
            lack(agent, "agent"@),
            lack(task, "task"@),
        ],
    }
}

/// An agent that reduces.
pub open spec fn decoded_agent(node: JsonView) -> Result<AgentReducerView, Seq<char>> {
    let agent = decoded_text(part(node, 0, "agent"@));
    let task = decoded_text(part(node, 1, "task"@));
    let output = decoded_output(given(part(node, 2, "output"@)));
    match first(agent_faults(node)) {
        Some(message) => Err(message),
        None => Ok(
            AgentReducerView { agent: agent->Ok_0->0, task: task->Ok_0->0, output: output->Ok_0 },
        ),
    }
}

/// A reducer.
pub open spec fn decoded_reducer(node: JsonView) -> Result<ReducerView, Seq<char>> {
    match reducer_is_agent(node) {
        Err(message) => Err(message),
        Ok(true) => match decoded_agent(node) {
            Err(message) => Err(message),
            Ok(agent) => Ok(ReducerView::Agent(agent)),
        },
        Ok(false) => {
            let excess = match node {
                JsonView::Array(items) => surplus(items, 0, "0 elements in sequence"@),
                _ => None,
            };
            match excess {
                Some(message) => Err(message),
                None => Ok(ReducerView::Collect),
            }
        },
    }
}

/// A reducer, if there is a value.
pub open spec fn decoded_reducer_option(value: Option<JsonView>) -> Result<
    Option<ReducerView>,
    Seq<char>,
> {
    match value {
        None => Ok(None),
        Some(value) => match decoded_reducer(value) {
            Ok(reducer) => Ok(Some(reducer)),
            Err(message) => Err(message),
        },
    }
}

/// What may be wrong with a spawn node, in the order in which it is reported.
pub open spec fn spawn_faults(node: JsonView) -> Seq<Option<Seq<char>>> {
    let id = decoded_text(given(part(node, 0, "id"@)));
    let label = decoded_text(given(part(node, 1, "label"@)));
    let agent = decoded_text(part(node, 2, "agent"@));
    let task = decoded_text(part(node, 3, "task"@));
    let cwd = decoded_text(given(part(node, 4, "cwd"@)));
    let output = decoded_output(given(part(node, 5, "output"@)));
    let expected = "struct SpawnSpec with 6 elements"@;
    match node {
        JsonView::Array(items) => seq![
            slot(items, 0, expected, fault(id)),
            slot(items, 1, expected, fault(label)),
            slot(items, 2, expected, fault(agent)),
            slot(items, 3, expected, fault(task)),
            slot(items, 4, expected, fault(cwd)),
            slot(items, 5, expected, fault(output)),
            surplus(items, 6, "6 elements in sequence"@),
        ],
        _ => seq![
            fault(agent),
            fault(cwd),
            fault(id),
            fault(label),
            fault(output),
            fault(task),
            lack(agent, "agent"@),
            lack(task, "task"@),
        ],
    }
}

/// A spawn node.
pub open spec fn decoded_spawn(node: JsonView) -> Result<SpawnView, Seq<char>> {
    let id = decoded_text(given(part(node, 0, "id"@)));
    let label = decoded_text(given(part(node, 1, "label"@)));
    let agent = decoded_text(part(node, 2, "agent"@));
    let task = decoded_text(part(node, 3, "task"@));
    let cwd = decoded_text(given(part(node, 4, "cwd"@)));
    let output = decoded_output(given(part(node, 5, "output"@)));
    match first(spawn_faults(node)) {
        Some(message) => Err(message),
        None => Ok(
            SpawnView {
                id: id->Ok_0,
                label: label->Ok_0,
                agent: agent->Ok_0->0,
                task: task->Ok_0->0,
                cwd: cwd->Ok_0,
                output: output->Ok_0,
            },
        ),
    }
}

/// What may be wrong with a join node, in the order in which it is reported.
pub open spec fn join_faults(node: JsonView) -> Seq<Option<Seq<char>>> {
    let id = decoded_text(given(part(node, 0, "id"@)));
    let label = decoded_text(given(part(node, 1, "label"@)));
    let from = decoded_text(part(node, 2, "from"@));
    let mode = decoded_mode(part(node, 3, "mode"@));
    let quorum = decoded_count(given(part(node, 4, "quorum"@)));
    let reducer = decoded_reducer_option(given(part(node, 5, "reducer"@)));
    let on_failure = decoded_failure(given(part(node, 6, "onFailure"@)));
    let expected = "struct JoinSpec with 7 elements"@;
    match node {
        JsonView::Array(items) => seq![
            slot(items, 0, expected, fault(id)),
            slot(items, 1, expected, fault(label)),
            slot(items, 2, expected, fault(from)),
            slot(items, 3, expected, fault(mode)),
            slot(items, 4, expected, fault(quorum)),
            slot(items, 5, expected, fault(reducer)),
            slot(items, 6, expected, fault(on_failure)),
            surplus(items, 7, "7 elements in sequence"@),
        ],
        _ => seq![
            fault(from),
            fault(id),
            fault(label),
            fault(mode),
            fault(on_failure),
            fault(quorum),
            fault(reducer),
            lack(from, "from"@),
            lack(mode, "mode"@),
        ],
    }
}

/// A join node.
pub open spec fn decoded_join(node: JsonView) -> Result<JoinView, Seq<char>> {
    let id = decoded_text(given(part(node, 0, "id"@)));
    let label = decoded_text(given(part(node, 1, "label"@)));
    let from = decoded_text(part(node, 2, "from"@));
    let mode = decoded_mode(part(node, 3, "mode"@));
    let quorum = decoded_count(given(part(node, 4, "quorum"@)));
    let reducer = decoded_reducer_option(given(part(node, 5, "reducer"@)));
    let on_failure = decoded_failure(given(part(node, 6, "onFailure"@)));
    match first(join_faults(node)) {
        Some(message) => Err(message),
        None => Ok(
            JoinView {
                id: id->Ok_0,
                label: label->Ok_0,
                from: from->Ok_0->0,
                mode: mode->Ok_0->0,
                quorum: quorum->Ok_0,
                reducer: reducer->Ok_0,
                on_failure: on_failure->Ok_0,
            },
        ),
    }
}

/// What may be wrong with a sequence node, in the order in which it is reported.
pub open spec fn sequence_faults(
    node: JsonView,
    steps: Result<Option<Seq<FlowView>>, Seq<char>>,
) -> Seq<Option<Seq<char>>> {
    let id = decoded_text(given(part(node, 0, "id"@)));
    let label = decoded_text(given(part(node, 1, "label"@)));
    let expected = "struct SequenceSpec with 3 elements"@;
    match node {
        JsonView::Array(items) => seq![
            slot(items, 0, expected, fault(id)),
            slot(items, 1, expected, fault(label)),
            slot(items, 2, expected, fault(steps)),
            surplus(items, 3, "3 elements in sequence"@),
        ],
        _ => seq![fault(id), fault(label), fault(steps), lack(steps, "steps"@)],
    }
}

/// A sequence node whose steps were read.
pub open spec fn assembled_sequence(
    node: JsonView,
    steps: Result<Option<Seq<FlowView>>, Seq<char>>,
) -> Result<FlowView, Seq<char>> {
    let id = decoded_text(given(part(node, 0, "id"@)));
    let label = decoded_text(given(part(node, 1, "label"@)));
    match first(sequence_faults(node, steps)) {
        Some(message) => Err(message),
        None => Ok(
            FlowView::Sequence(
                SequenceView { id: id->Ok_0, label: label->Ok_0, steps: steps->Ok_0->0 },
            ),
        ),
    }
}

/// What may be wrong with a fork node, in the order in which it is reported.
pub open spec fn fork_faults(
    node: JsonView,
    branches: Result<Option<Seq<(Seq<char>, FlowView)>>, Seq<char>>,
) -> Seq<Option<Seq<char>>> {
    let id = decoded_text(part(node, 0, "id"@));
    let label = decoded_text(given(part(node, 1, "label"@)));
    let concurrency = decoded_count(given(part(node, 3, "concurrency"@)));
    let expected = "struct ForkSpec with 4 elements"@;
    match node {
        JsonView::Array(items) => seq![
            slot(items, 0, expected, fault(id)),
            slot(items, 1, expected, fault(label)),
            slot(items, 2, expected, fault(branches)),
            slot(items, 3, expected, fault(concurrency)),
            surplus(items, 4, "4 elements in sequence"@),
        ],
        _ => seq![
            fault(branches),
            fault(concurrency),
            fault(id),
            fault(label),
            lack(id, "id"@),
            lack(branches, "branches"@),
        ],
    }
}

/// A fork node whose branches were read.
pub open spec fn assembled_fork(
    node: JsonView,
    branches: Result<Option<Seq<(Seq<char>, FlowView)>>, Seq<char>>,
) -> Result<FlowView, Seq<char>> {
    let id = decoded_text(part(node, 0, "id"@));
    let label = decoded_text(given(part(node, 1, "label"@)));
    let concurrency = decoded_count(given(part(node, 3, "concurrency"@)));
    match first(fork_faults(node, branches)) {
        Some(message) => Err(message),
        None => Ok(
            FlowView::Fork(
                ForkView {
                    id: id->Ok_0->0,
                    label: label->Ok_0,
                    branches: branches->Ok_0->0,
                    concurrency: concurrency->Ok_0,
                },
            ),
        ),
    }
}

/// What may be wrong with a loop node, in the order in which it is reported.
pub open spec fn loop_faults(
    node: JsonView,
    body: Result<Option<FlowView>, Seq<char>>,
) -> Seq<Option<Seq<char>>> {
    let id = decoded_text(part(node, 0, "id"@));
    let label = decoded_text(given(part(node, 1, "label"@)));
    let max_iterations = decoded_count(part(node, 3, "maxIterations"@));
    let expected = "struct LoopSpec with 5 elements"@;
    match node {
        JsonView::Array(items) => seq![
            slot(items, 0, expected, fault(id)),
            slot(items, 1, expected, fault(label)),
            slot(items, 2, expected, fault(body)),
            slot(items, 3, expected, fault(max_iterations)),
            slot(items, 4, expected, None),
            surplus(items, 5, "5 elements in sequence"@),
        ],
        _ => seq![
            fault(body),
            fault(id),
            fault(label),
            fault(max_iterations),
            lack(id, "id"@),
            lack(body, "body"@),
            lack(max_iterations, "maxIterations"@),
        ],
    }
}

/// A loop node whose body was read.
pub open spec fn assembled_loop(
    node: JsonView,
    body: Result<Option<FlowView>, Seq<char>>,
) -> Result<FlowView, Seq<char>> {
    let id = decoded_text(part(node, 0, "id"@));
    let label = decoded_text(given(part(node, 1, "label"@)));
    let max_iterations = decoded_count(part(node, 3, "maxIterations"@));
    match first(loop_faults(node, body)) {
        Some(message) => Err(message),
        None => Ok(
            FlowView::Loop(
                LoopView {
                    id: id->Ok_0->0,
                    label: label->Ok_0,
                    body: Box::new(body->Ok_0->0),
                    max_iterations: max_iterations->Ok_0->0,
                    continue_when: given(part(node, 4, "continueWhen"@)),
                },
            ),
        ),
    }
}

/// A result as one that may be missing.
pub open spec fn present<T>(result: Result<T, Seq<char>>) -> Result<Option<T>, Seq<char>> {
    match result {
        Ok(value) => Ok(Some(value)),
        Err(message) => Err(message),
    }
}

/// The flow that a node denotes; `nested` where it stands inside another node.
///
/// Of a node written as an object the fields are read in key order, and the first
/// that is not what it should be is reported; then the first that is missing. Of
/// one written as an array the first field that is missing or wrong is.
pub open spec fn decoded(node: JsonView, nested: bool) -> Result<FlowView, Seq<char>>
    decreases node, 0nat,
{
    match node_kind(node, nested) {
        Err(message) => Err(message),
        Ok(NodeKind::Spawn) => match decoded_spawn(node) {
            Ok(s) => Ok(FlowView::Spawn(s)),
            Err(message) => Err(message),
        },
        Ok(NodeKind::Join) => match decoded_join(node) {
            Ok(j) => Ok(FlowView::Join(j)),
            Err(message) => Err(message),
        },
        Ok(NodeKind::Sequence) => {
            let steps = part(node, 2, "steps"@);
            proof {
                lemma_part_smaller(node, 2, "steps"@);
            }
            assembled_sequence(
                node,
                match steps {
                    None => Ok(None),
                    Some(JsonView::Array(items)) => present(decoded_steps(steps->0, items.len())),
                    Some(other) => Err(wrong_type(other, "a sequence"@)),
                },
            )
        },
        Ok(NodeKind::Fork) => {
            let branches = part(node, 2, "branches"@);
            proof {
                lemma_part_smaller(node, 2, "branches"@);
            }
            assembled_fork(
                node,
                match branches {
                    None => Ok(None),
                    Some(JsonView::Object(entries)) => present(
                        decoded_branches(branches->0, entries.len()),
                    ),
                    Some(other) => Err(wrong_type(other, "a map"@)),
                },
            )
        },
        Ok(NodeKind::Loop) => {
            let body = part(node, 2, "body"@);
            proof {
                lemma_part_smaller(node, 2, "body"@);
            }
            assembled_loop(
                node,
                match body {
                    None => Ok(None),
                    Some(body) => present(decoded(body, true)),
                },
            )
        },
    }
}

/// The flows that the first `n` elements of an array denote.
pub open spec fn decoded_steps(steps: JsonView, n: nat) -> Result<Seq<FlowView>, Seq<char>>
    decreases steps, n,
{
    if n == 0 || !(steps is Array) || n > steps->Array_0.len() {
        Ok(Seq::empty())
    } else {
        match decoded_steps(steps, (n - 1) as nat) {
            Err(message) => Err(message),
            Ok(done) => {
                proof {
                    json::lemma_element_smaller(steps, n - 1);
                }
                match decoded(steps->Array_0[n - 1], true) {
                    Err(message) => Err(message),
                    Ok(step) => Ok(done.push(step)),
                }
            },
        }
    }
}

/// The flows that the first `n` entries of an object denote.
pub open spec fn decoded_branches(branches: JsonView, n: nat) -> Result<
    Seq<(Seq<char>, FlowView)>,
    Seq<char>,
>
    decreases branches, n,
{
    if n == 0 || !(branches is Object) || n > branches->Object_0.len() {
        Ok(Seq::empty())
    } else {
        match decoded_branches(branches, (n - 1) as nat) {
            Err(message) => Err(message),
            Ok(done) => {
                proof {
                    json::lemma_entry_smaller(branches, n - 1);
                }
                match decoded(branches->Object_0[n - 1].1, true) {
                    Err(message) => Err(message),
                    Ok(branch) => Ok(done.push((branches->Object_0[n - 1].0, branch))),
                }
            },
        }
    }
}

/// An object with the fields of a spawn reads as that spawn.
pub proof fn lemma_spawn_reads(node: JsonView, s: SpawnView)
    requires
        node is Object,
        decoded_text(given(part(node, 0, "id"@))) == Ok::<Option<Seq<char>>, Seq<char>>(s.id),
        decoded_text(given(part(node, 1, "label"@))) == Ok::<Option<Seq<char>>, Seq<char>>(s.label),
        decoded_text(part(node, 2, "agent"@)) == Ok::<Option<Seq<char>>, Seq<char>>(Some(s.agent)),
        decoded_text(part(node, 3, "task"@)) == Ok::<Option<Seq<char>>, Seq<char>>(Some(s.task)),
        decoded_text(given(part(node, 4, "cwd"@))) == Ok::<Option<Seq<char>>, Seq<char>>(s.cwd),
        decoded_output(given(part(node, 5, "output"@))) == Ok::<Option<OutputMode>, Seq<char>>(
            s.output,
        ),
    ensures
        decoded_spawn(node) == Ok::<SpawnView, Seq<char>>(s),
{
    lemma_first(spawn_faults(node));
}

/// An object with the fields of a join reads as that join.
pub proof fn lemma_join_reads(node: JsonView, j: JoinView)
    requires
        node is Object,
        decoded_text(given(part(node, 0, "id"@))) == Ok::<Option<Seq<char>>, Seq<char>>(j.id),
        decoded_text(given(part(node, 1, "label"@))) == Ok::<Option<Seq<char>>, Seq<char>>(j.label),
        decoded_text(part(node, 2, "from"@)) == Ok::<Option<Seq<char>>, Seq<char>>(Some(j.from)),
        decoded_mode(part(node, 3, "mode"@)) == Ok::<Option<JoinMode>, Seq<char>>(Some(j.mode)),
        decoded_count(given(part(node, 4, "quorum"@))) == Ok::<Option<usize>, Seq<char>>(j.quorum),
        decoded_reducer_option(given(part(node, 5, "reducer"@))) == Ok::<
            Option<ReducerView>,
            Seq<char>,
        >(j.reducer),
        decoded_failure(given(part(node, 6, "onFailure"@))) == Ok::<Option<OnFailure>, Seq<char>>(
            j.on_failure,
        ),
    ensures
        decoded_join(node) == Ok::<JoinView, Seq<char>>(j),
{
    lemma_first(join_faults(node));
}

/// An object with the fields of a reducing agent reads as that agent.
pub proof fn lemma_agent_reads(node: JsonView, r: AgentReducerView)
    requires
        node is Object,
        decoded_text(part(node, 0, "agent"@)) == Ok::<Option<Seq<char>>, Seq<char>>(Some(r.agent)),
        decoded_text(part(node, 1, "task"@)) == Ok::<Option<Seq<char>>, Seq<char>>(Some(r.task)),
        decoded_output(given(part(node, 2, "output"@))) == Ok::<Option<OutputMode>, Seq<char>>(
            r.output,
        ),
    ensures
        decoded_agent(node) == Ok::<AgentReducerView, Seq<char>>(r),
{
    lemma_first(agent_faults(node));
}

/// An object with the fields of a sequence reads as that sequence.
pub proof fn lemma_sequence_reads(node: JsonView, s: SequenceView)
    requires
        node is Object,
        decoded_text(given(part(node, 0, "id"@))) == Ok::<Option<Seq<char>>, Seq<char>>(s.id),
        decoded_text(given(part(node, 1, "label"@))) == Ok::<Option<Seq<char>>, Seq<char>>(s.label),
    ensures
        assembled_sequence(node, Ok(Some(s.steps))) == Ok::<FlowView, Seq<char>>(
            FlowView::Sequence(s),
        ),
{
    lemma_first(sequence_faults(node, Ok(Some(s.steps))));
}

/// An object with the fields of a fork reads as that fork.
pub proof fn lemma_fork_reads(node: JsonView, k: ForkView)
    requires
        node is Object,
        decoded_text(part(node, 0, "id"@)) == Ok::<Option<Seq<char>>, Seq<char>>(Some(k.id)),
        decoded_text(given(part(node, 1, "label"@))) == Ok::<Option<Seq<char>>, Seq<char>>(k.label),
        decoded_count(given(part(node, 3, "concurrency"@))) == Ok::<Option<usize>, Seq<char>>(
            k.concurrency,
        ),
    ensures
        assembled_fork(node, Ok(Some(k.branches))) == Ok::<FlowView, Seq<char>>(FlowView::Fork(k)),
{
    lemma_first(fork_faults(node, Ok(Some(k.branches))));
}

/// An object with the fields of a loop reads as that loop.
pub proof fn lemma_loop_reads(node: JsonView, l: LoopView)
    requires
        node is Object,
        decoded_text(part(node, 0, "id"@)) == Ok::<Option<Seq<char>>, Seq<char>>(Some(l.id)),
        decoded_text(given(part(node, 1, "label"@))) == Ok::<Option<Seq<char>>, Seq<char>>(l.label),
        decoded_count(part(node, 3, "maxIterations"@)) == Ok::<Option<usize>, Seq<char>>(
            Some(l.max_iterations),
        ),
        given(part(node, 4, "continueWhen"@)) == l.continue_when,
    ensures
        assembled_loop(node, Ok(Some(*l.body))) == Ok::<FlowView, Seq<char>>(FlowView::Loop(l)),
{
    lemma_first(loop_faults(node, Ok(Some(*l.body))));
}

/// A spawn node with which nothing is wrong has all it needs.
pub proof fn lemma_spawn_is_complete(node: JsonView)
    requires
        first(spawn_faults(node)) is None,
    ensures
        decoded_text(given(part(node, 0, "id"@))) is Ok,
        decoded_text(given(part(node, 1, "label"@))) is Ok,
        decoded_text(part(node, 2, "agent"@)) matches Ok(Some(_)),
        decoded_text(part(node, 3, "task"@)) matches Ok(Some(_)),
        decoded_text(given(part(node, 4, "cwd"@))) is Ok,
        decoded_output(given(part(node, 5, "output"@))) is Ok,
{
    let faults = spawn_faults(node);
    lemma_first(faults);
    assert(faults[0] is None && faults[1] is None && faults[2] is None && faults[3] is None);
    assert(faults[4] is None && faults[5] is None && faults[6] is None);
    if !(node is Array) {
        assert(faults[7] is None);
    }
}

/// A sequence node with which nothing is wrong has its steps.
pub proof fn lemma_sequence_is_complete(
    node: JsonView,
    steps: Result<Option<Seq<FlowView>>, Seq<char>>,
)
    requires
        first(sequence_faults(node, steps)) is None,
        steps == Ok::<Option<Seq<FlowView>>, Seq<char>>(None) ==> part(node, 2, "steps"@) is None,
    ensures
        decoded_text(given(part(node, 0, "id"@))) is Ok,
        decoded_text(given(part(node, 1, "label"@))) is Ok,
        steps matches Ok(Some(_)),
{
    let faults = sequence_faults(node, steps);
    lemma_first(faults);
    assert(faults[0] is None && faults[1] is None && faults[2] is None && faults[3] is None);
}

/// A fork node with which nothing is wrong has its id and its branches.
pub proof fn lemma_fork_is_complete(
    node: JsonView,
    branches: Result<Option<Seq<(Seq<char>, FlowView)>>, Seq<char>>,
)
    requires
        first(fork_faults(node, branches)) is None,
        branches == Ok::<Option<Seq<(Seq<char>, FlowView)>>, Seq<char>>(None) ==> part(
            node,
            2,
            "branches"@,
        ) is None,
    ensures
        decoded_text(part(node, 0, "id"@)) matches Ok(Some(_)),
        decoded_text(given(part(node, 1, "label"@))) is Ok,
        decoded_count(given(part(node, 3, "concurrency"@))) is Ok,
        branches matches Ok(Some(_)),
{
    let faults = fork_faults(node, branches);
    lemma_first(faults);
    assert(faults[0] is None && faults[1] is None && faults[2] is None && faults[3] is None);
    assert(faults[4] is None);
    if !(node is Array) {
        assert(faults[5] is None);
    }
}

/// A loop node with which nothing is wrong has its id, its body and its bound.
pub proof fn lemma_loop_is_complete(node: JsonView, body: Result<Option<FlowView>, Seq<char>>)
    requires
        first(loop_faults(node, body)) is None,
        body == Ok::<Option<FlowView>, Seq<char>>(None) ==> part(node, 2, "body"@) is None,
    ensures
        decoded_text(part(node, 0, "id"@)) matches Ok(Some(_)),
        decoded_text(given(part(node, 1, "label"@))) is Ok,
        decoded_count(part(node, 3, "maxIterations"@)) matches Ok(Some(_)),
        body matches Ok(Some(_)),
{
    let faults = loop_faults(node, body);
    lemma_first(faults);
    assert(faults[0] is None && faults[1] is None && faults[2] is None && faults[3] is None);
    assert(faults[4] is None && faults[5] is None);
    if !(node is Array) {
        assert(faults[6] is None);
    }
}

/// What is read of a node was read of its parts.
pub proof fn lemma_decoded_parts(node: JsonView, nested: bool)
    ensures
        decoded(node, nested) matches Ok(f) ==> node_kind(node, nested) == Ok::<
            NodeKind,
            Seq<char>,
        >(f.kind()) && match f {
            FlowView::Spawn(s) => {
                &&& part(node, 2, "agent"@) == Some(JsonView::Text(s.agent))
                &&& part(node, 3, "task"@) == Some(JsonView::Text(s.task))
            },
            FlowView::Join(_) => true,
            FlowView::Sequence(s) => {
                let steps = part(node, 2, "steps"@);
                &&& steps matches Some(JsonView::Array(items))
                &&& decoded_steps(steps->0, items.len()) == Ok::<Seq<FlowView>, Seq<char>>(s.steps)
            },
            FlowView::Fork(k) => {
                let branches = part(node, 2, "branches"@);
                &&& branches matches Some(JsonView::Object(entries))
                &&& decoded_branches(branches->0, entries.len()) == Ok::<
                    Seq<(Seq<char>, FlowView)>,
                    Seq<char>,
                >(k.branches)
            },
            FlowView::Loop(l) => {
                &&& part(node, 2, "body"@) matches Some(body)
                &&& decoded(body, true) == Ok::<FlowView, Seq<char>>(*l.body)
                &&& l.continue_when != Some(JsonView::Null)
            },
        },
{
    match node_kind(node, nested) {
        Ok(NodeKind::Spawn) => {
            if decoded_spawn(node) is Ok {
                lemma_spawn_is_complete(node);
            }
        },
        Ok(NodeKind::Sequence) => {
            let steps = part(node, 2, "steps"@);
            let read = match steps {
                None => Ok(None),
                Some(JsonView::Array(items)) => present(decoded_steps(steps->0, items.len())),
                Some(other) => Err(wrong_type(other, "a sequence"@)),
            };
            assert(decoded(node, nested) == assembled_sequence(node, read));
            if assembled_sequence(node, read) is Ok {
                lemma_sequence_is_complete(node, read);
            }
        },
        Ok(NodeKind::Fork) => {
            let branches = part(node, 2, "branches"@);
            let read = match branches {
                None => Ok(None),
                Some(JsonView::Object(entries)) => present(
                    decoded_branches(branches->0, entries.len()),
                ),
                Some(other) => Err(wrong_type(other, "a map"@)),
            };
            assert(decoded(node, nested) == assembled_fork(node, read));
            if assembled_fork(node, read) is Ok {
                lemma_fork_is_complete(node, read);
            }
        },
        Ok(NodeKind::Loop) => {
            let body = part(node, 2, "body"@);
            let read = match body {
                None => Ok(None),
                Some(body) => present(decoded(body, true)),
            };
            assert(decoded(node, nested) == assembled_loop(node, read));
            if assembled_loop(node, read) is Ok {
                lemma_loop_is_complete(node, read);
            }
        },
        _ => {},
    }
}

// ---------------------------------------------------------------------------
// Executable reading
// ---------------------------------------------------------------------------

/// The content of a borrowed optional value.
pub open spec fn seen(value: Option<&Json>) -> Option<JsonView> {
    match value {
        Some(value) => Some(value@),
        None => None,
    }
}

fn tag_of(node: &Json) -> (found: Option<&Json>)
    ensures
        seen(found) == tag(node@),
{
    proof {
        node.lemma_view();
    }
    match node {
        Json::Object(map) => json::field(map, "kind"),
        Json::Array(items) => if items.len() > 0 {
            Some(&items[0])
        } else {
            None
        },
        _ => None,
    }
}

fn part_of<'a>(node: &'a Json, i: usize, name: &str) -> (found: Option<&'a Json>)
    requires
        i < 100,
    ensures
        seen(found) == part(node@, i as int, name@),
{
    proof {
        node.lemma_view();
    }
    match node {
        Json::Object(map) => json::field(map, name),
        Json::Array(items) => if i + 1 < items.len() {
            Some(&items[i + 1])
        } else {
            None
        },
        _ => None,
    }
}

fn given_of(value: Option<&Json>) -> (found: Option<&Json>)
    ensures
        seen(found) == given(seen(value)),
{
    match value {
        Some(Json::Null) => None,
        other => other,
    }
}

fn show(value: &Json) -> (said: String)
    ensures
        said@ == shown(value@),
{
    proof {
        value.lemma_view();
    }
    match value {
        Json::Null => "null".to_owned(),
        Json::Bool(yes) => if *yes {
            "boolean `true`".to_owned()
        } else {
            "boolean `false`".to_owned()
        },
        Json::Number(JsonNumber::Unsigned(n)) => show_unsigned(*n),
        Json::Number(JsonNumber::Signed(n)) => show_integer(*n),
        Json::Number(JsonNumber::Fraction(_)) => text::join3(
            "floating point `",
            value.compact().as_str(),
            "`",
        ),
        Json::Text(text) => text::join("string ", text::quoted(text.as_str()).as_str()),
        Json::Array(_) => "sequence".to_owned(),
        Json::Object(_) => "map".to_owned(),
    }
}

fn show_unsigned(n: u64) -> (said: String)
    ensures
        said@ == integer_shown(n as int),
{
    text::join3("integer `", text::decimal(n).as_str(), "`")
}

fn show_integer(n: i64) -> (said: String)
    ensures
        said@ == integer_shown(n as int),
{
    text::join3("integer `", text::integer(n).as_str(), "`")
}

fn type_message(value: &Json, expected: &str) -> (message: String)
    ensures
        message@ == wrong_type(value@, expected@),
{
    let mut message = text::join3("invalid type: ", show(value).as_str(), ", expected ");
    message.append(expected);
    message
}

fn value_message(value: &str, expected: &str) -> (message: String)
    ensures
        message@ == wrong_value(value@, expected@),
{
    let mut message = text::join3("invalid value: ", value, ", expected ");
    message.append(expected);
    message
}

fn variant_message(name: &str, expected: &str) -> (message: String)
    ensures
        message@ == unknown_variant(name@, expected@),
{
    let mut message = text::join3("unknown variant `", name, "`, expected ");
    message.append(expected);
    message
}

fn missing_message(name: &str) -> (message: String)
    ensures
        message@ == missing_field(name@),
{
    text::join3("missing field `", name, "`")
}

fn length_message(n: usize, expected: &str) -> (message: String)
    ensures
        message@ == wrong_length(n as nat, expected@),
{
    let mut message = text::join3("invalid length ", text::decimal(n as u64).as_str(), ", expected ");
    message.append(expected);
    message
}

/// The content of a result.
pub open spec fn result_view<T>(result: Result<T, String>) -> Result<T, Seq<char>> {
    match result {
        Ok(value) => Ok(value),
        Err(message) => Err(message@),
    }
}

/// The content of a result with a text.
pub open spec fn text_result(result: Result<Option<String>, String>) -> Result<
    Option<Seq<char>>,
    Seq<char>,
> {
    match result {
        Ok(text) => Ok(flow::text_option(text)),
        Err(message) => Err(message@),
    }
}

fn fault_of<T>(result: &Result<T, String>) -> (found: Option<String>)
    ensures
        flow::text_option(found) == fault(result_view(*result)),
{
    match result {
        Ok(_) => None,
        Err(message) => Some(message.clone()),
    }
}

fn lack_of<T>(result: &Result<Option<T>, String>, name: &str) -> (found: Option<String>)
    ensures
        flow::text_option(found) == lack(result_view(*result), name@),
{
    match result {
        Ok(None) => Some(missing_message(name)),
        _ => None,
    }
}

fn slot_of(node: &Json, i: usize, expected: &str, own: Option<String>) -> (found: Option<String>)
    requires
        node@ is Array,
        i < 100,
    ensures
        flow::text_option(found) == slot(
            node@->Array_0,
            i as int,
            expected@,
            flow::text_option(own),
        ),
{
    proof {
        node.lemma_view();
    }
    match node {
        Json::Array(items) => if i + 1 < items.len() {
            own
        } else {
            Some(length_message(i, expected))
        },
        _ => None,
    }
}

fn surplus_of(node: &Json, n: usize, expected: &str) -> (found: Option<String>)
    requires
        node@ is Array,
        n < 100,
    ensures
        flow::text_option(found) == surplus(node@->Array_0, n as int, expected@),
{
    proof {
        node.lemma_view();
    }
    match node {
        Json::Array(items) => if items.len() > n + 1 {
            Some(length_message(items.len() - 1, expected))
        } else {
            None
        },
        _ => None,
    }
}

/// The content of a list of faults.
pub open spec fn fault_views(faults: Seq<Option<String>>) -> Seq<Option<Seq<char>>> {
    Seq::new(faults.len(), |i: int| flow::text_option(faults[i]))
}

fn first_of(faults: &Vec<Option<String>>) -> (found: Option<String>)
    ensures
        flow::text_option(found) == first(fault_views(faults@)),
{
    let ghost all = fault_views(faults@);
    let mut i: usize = 0;
    assert(all.skip(0) =~= all);
    while i < faults.len()
        invariant
            all == fault_views(faults@),
            i <= faults@.len(),
            first(all) == first(all.skip(i as int)),
        decreases faults@.len() - i,
    {
        assert(all.skip(i as int)[0] == flow::text_option(faults@[i as int]));
        assert(all.skip(i as int).drop_first() =~= all.skip(i + 1));
        match &faults[i] {
            Some(message) => return Some(message.clone()),
            None => {},
        }
        i += 1;
    }
    None
}

fn is_list(node: &Json) -> (yes: bool)
    ensures
        yes == (node@ is Array),
{
    match node {
        Json::Array(_) => true,
        _ => false,
    }
}

fn kind_of(node: &Json, nested: bool) -> (result: Result<NodeKind, String>)
    ensures
        result_view(result) == node_kind(node@, nested),
{
    match node {
        Json::Object(_) => {},
        Json::Array(_) => {},
        _ => return Err(type_message(node, "internally tagged enum FlowSpec")),
    }
    let tag = tag_of(node);
    let position = match tag {
        Some(tag) => tag.as_u64(),
        None => None,
    };
    match tag {
        None => Err(missing_message("kind")),
        Some(Json::Text(name)) => {
            if text::same_text(name.as_str(), "spawn") {
                Ok(NodeKind::Spawn)
            } else if text::same_text(name.as_str(), "sequence") {
                Ok(NodeKind::Sequence)
            } else if text::same_text(name.as_str(), "fork") {
                Ok(NodeKind::Fork)
            } else if text::same_text(name.as_str(), "join") {
                Ok(NodeKind::Join)
            } else if text::same_text(name.as_str(), "loop") {
                Ok(NodeKind::Loop)
            } else {
                Err(
                    variant_message(
                        name.as_str(),
                        "one of `spawn`, `sequence`, `fork`, `join`, `loop`",
                    ),
                )
            }
        },
        Some(other) => match position {
            Some(n) if nested => {
                if n == 0 {
                    Ok(NodeKind::Spawn)
                } else if n == 1 {
                    Ok(NodeKind::Sequence)
                } else if n == 2 {
                    Ok(NodeKind::Fork)
                } else if n == 3 {
                    Ok(NodeKind::Join)
                } else if n == 4 {
                    Ok(NodeKind::Loop)
                } else {
                    Err(value_message(show_unsigned(n).as_str(), "variant index 0 <= i < 5"))
                }
            },
            _ => Err(type_message(other, "variant identifier")),
        },
    }
}

fn read_text(value: Option<&Json>) -> (result: Result<Option<String>, String>)
    ensures
        text_result(result) == decoded_text(seen(value)),
{
    match value {
        None => Ok(None),
        Some(Json::Text(text)) => Ok(Some(text.clone())),
        Some(other) => Err(type_message(other, "a string")),
    }
}

fn read_count(value: Option<&Json>) -> (result: Result<Option<usize>, String>)
    ensures
        result_view(result) == decoded_count(seen(value)),
{
    match value {
        None => Ok(None),
        Some(Json::Number(JsonNumber::Unsigned(n))) => if *n <= usize::MAX as u64 {
            Ok(Some(*n as usize))
        } else {
            Err(value_message(show_unsigned(*n).as_str(), "usize"))
        },
        Some(Json::Number(JsonNumber::Signed(n))) => if *n >= 0 && *n as u64 <= usize::MAX as u64 {
            Ok(Some(*n as usize))
        } else {
            Err(value_message(show_integer(*n).as_str(), "usize"))
        },
        Some(other) => Err(type_message(other, "usize")),
    }
}

fn choice_of(value: &Json) -> (result: Result<(&String, Option<&Json>), String>)
    ensures
        match result {
            Ok((name, content)) => chosen(value@) == Ok::<
                (Seq<char>, Option<JsonView>),
                Seq<char>,
            >((name@, seen(content))),
            Err(message) => chosen(value@) == Err::<(Seq<char>, Option<JsonView>), Seq<char>>(
                message@,
            ),
        },
{
    proof {
        value.lemma_view();
    }
    match value {
        Json::Text(name) => Ok((name, None)),
        Json::Object(map) => {
            if map.len() == 1 {
                proof {
                    assert(json::fields(*map)[0] == (map@[0].0, map@[0].1@));
                }
                Ok((map.key_at(0), Some(map.value_at(0))))
            } else {
                Err(value_message("map", "map with a single key"))
            }
        },
        other => Err(type_message(other, "string or map")),
    }
}

fn choose_alone<T>(content: Option<&Json>, choice: T) -> (result: Result<Option<T>, String>)
    ensures
        result_view(result) == alone(seen(content), choice),
{
    match content {
        None => Ok(Some(choice)),
        Some(Json::Null) => Ok(Some(choice)),
        Some(other) => {
            proof {
                other.lemma_view();
            }
            let empty: bool = match other {
                Json::Object(map) => map.is_empty(),
                _ => false,
            };
            if empty {
                Ok(Some(choice))
            } else {
                Err(type_message(other, "unit"))
            }
        },
    }
}

fn read_output(value: Option<&Json>) -> (result: Result<Option<OutputMode>, String>)
    ensures
        result_view(result) == decoded_output(seen(value)),
{
    match value {
        None => Ok(None),
        Some(value) => match choice_of(value) {
            Err(message) => Err(message),
            Ok((name, content)) => if text::same_text(name.as_str(), "text") {
                choose_alone(content, OutputMode::Text)
            } else if text::same_text(name.as_str(), "json") {
                choose_alone(content, OutputMode::Json)
            } else {
                Err(variant_message(name.as_str(), "`text` or `json`"))
            },
        },
    }
}

fn read_mode(value: Option<&Json>) -> (result: Result<Option<JoinMode>, String>)
    ensures
        result_view(result) == decoded_mode(seen(value)),
{
    match value {
        None => Ok(None),
        Some(value) => match choice_of(value) {
            Err(message) => Err(message),
            Ok((name, content)) => if text::same_text(name.as_str(), "all") {
                choose_alone(content, JoinMode::All)
            } else if text::same_text(name.as_str(), "any") {
                choose_alone(content, JoinMode::Any)
            } else if text::same_text(name.as_str(), "quorum") {
                choose_alone(content, JoinMode::Quorum)
            } else {
                Err(variant_message(name.as_str(), "one of `all`, `any`, `quorum`"))
            },
        },
    }
}

fn read_failure(value: Option<&Json>) -> (result: Result<Option<OnFailure>, String>)
    ensures
        result_view(result) == decoded_failure(seen(value)),
{
    match value {
        None => Ok(None),
        Some(value) => match choice_of(value) {
            Err(message) => Err(message),
            Ok((name, content)) => if text::same_text(name.as_str(), "failFast") {
                choose_alone(content, OnFailure::FailFast)
            } else if text::same_text(name.as_str(), "collectErrors") {
                choose_alone(content, OnFailure::CollectErrors)
            } else {
                Err(variant_message(name.as_str(), "`failFast` or `collectErrors`"))
            },
        },
    }
}

fn is_agent(node: &Json) -> (result: Result<bool, String>)
    ensures
        result_view(result) == reducer_is_agent(node@),
{
    match node {
        Json::Object(_) => {},
        Json::Array(_) => {},
        _ => return Err(type_message(node, "internally tagged enum JoinReducer")),
    }
    let tag = tag_of(node);
    let position = match tag {
        Some(tag) => tag.as_u64(),
        None => None,
    };
    match tag {
        None => Err(missing_message("kind")),
        Some(Json::Text(name)) => {
            if text::same_text(name.as_str(), "collect") {
                Ok(false)
            } else if text::same_text(name.as_str(), "agent") {
                Ok(true)
            } else {
                Err(variant_message(name.as_str(), "`collect` or `agent`"))
            }
        },
        Some(other) => match position {
            Some(n) => {
                if n == 0 {
                    Ok(false)
                } else if n == 1 {
                    Ok(true)
                } else {
                    Err(value_message(show_unsigned(n).as_str(), "variant index 0 <= i < 2"))
                }
            },
            None => Err(type_message(other, "variant identifier")),
        },
    }
}

fn read_agent(node: &Json) -> (result: Result<AgentReducer, String>)
    ensures
        match result {
            Ok(agent) => decoded_agent(node@) == Ok::<AgentReducerView, Seq<char>>(agent@),
            Err(message) => decoded_agent(node@) == Err::<AgentReducerView, Seq<char>>(message@),
        },
{
    let agent = read_text(part_of(node, 0, "agent"));
    let task = read_text(part_of(node, 1, "task"));
    let output = read_output(given_of(part_of(node, 2, "output")));
    let mut faults: Vec<Option<String>> = Vec::new();
    if is_list(node) {
        let expected = "struct AgentReducer with 3 elements";
        faults.push(slot_of(node, 0, expected, fault_of(&agent)));
        faults.push(slot_of(node, 1, expected, fault_of(&task)));
        faults.push(slot_of(node, 2, expected, fault_of(&output)));
        faults.push(surplus_of(node, 3, "3 elements in sequence"));
    } else {
        faults.push(fault_of(&agent));
        faults.push(fault_of(&output));
        faults.push(fault_of(&task));
        faults.push(lack_of(&agent, "agent"));
        faults.push(lack_of(&task, "task"));
    }
    assert(fault_views(faults@) =~= agent_faults(node@));
    match first_of(&faults) {
        Some(message) => Err(message),
        None => {
            proof {
                lemma_first(agent_faults(node@));
            }
            match (agent, task, output) {
                (Ok(Some(agent)), Ok(Some(task)), Ok(output)) => Ok(
                    AgentReducer { agent, task, output },
                ),
                _ => Err(String::new()),
            }
        },
    }
}

fn read_reducer(node: &Json) -> (result: Result<JoinReducer, String>)
    ensures
        match result {
            Ok(reducer) => decoded_reducer(node@) == Ok::<ReducerView, Seq<char>>(reducer@),
            Err(message) => decoded_reducer(node@) == Err::<ReducerView, Seq<char>>(message@),
        },
{
    match is_agent(node) {
        Err(message) => Err(message),
        Ok(true) => match read_agent(node) {
            Ok(agent) => Ok(JoinReducer::Agent(agent)),
            Err(message) => Err(message),
        },
        Ok(false) => {
            let excess = if is_list(node) {
                surplus_of(node, 0, "0 elements in sequence")
            } else {
                None
            };
            match excess {
                Some(message) => Err(message),
                None => Ok(JoinReducer::Collect),
            }
        },
    }
}

/// The content of a result with a reducer.
pub open spec fn reducer_result(result: Result<Option<JoinReducer>, String>) -> Result<
    Option<ReducerView>,
    Seq<char>,
> {
    match result {
        Ok(Some(reducer)) => Ok(Some(reducer@)),
        Ok(None) => Ok(None),
        Err(message) => Err(message@),
    }
}

fn read_reducer_option(value: Option<&Json>) -> (result: Result<Option<JoinReducer>, String>)
    ensures
        reducer_result(result) == decoded_reducer_option(seen(value)),
{
    match value {
        None => Ok(None),
        Some(value) => match read_reducer(value) {
            Ok(reducer) => Ok(Some(reducer)),
            Err(message) => Err(message),
        },
    }
}

fn read_spawn(node: &Json) -> (result: Result<SpawnSpec, String>)
    ensures
        match result {
            Ok(s) => decoded_spawn(node@) == Ok::<SpawnView, Seq<char>>(s@),
            Err(message) => decoded_spawn(node@) == Err::<SpawnView, Seq<char>>(message@),
        },
{
    let id = read_text(given_of(part_of(node, 0, "id")));
    let label = read_text(given_of(part_of(node, 1, "label")));
    let agent = read_text(part_of(node, 2, "agent"));
    let task = read_text(part_of(node, 3, "task"));
    let cwd = read_text(given_of(part_of(node, 4, "cwd")));
    let output = read_output(given_of(part_of(node, 5, "output")));
    let mut faults: Vec<Option<String>> = Vec::new();
    if is_list(node) {
        let expected = "struct SpawnSpec with 6 elements";
        faults.push(slot_of(node, 0, expected, fault_of(&id)));
        faults.push(slot_of(node, 1, expected, fault_of(&label)));
        faults.push(slot_of(node, 2, expected, fault_of(&agent)));
        faults.push(slot_of(node, 3, expected, fault_of(&task)));
        faults.push(slot_of(node, 4, expected, fault_of(&cwd)));
        faults.push(slot_of(node, 5, expected, fault_of(&output)));
        faults.push(surplus_of(node, 6, "6 elements in sequence"));
    } else {
        faults.push(fault_of(&agent));
        faults.push(fault_of(&cwd));
        faults.push(fault_of(&id));
        faults.push(fault_of(&label));
        faults.push(fault_of(&output));
        faults.push(fault_of(&task));
        faults.push(lack_of(&agent, "agent"));
        faults.push(lack_of(&task, "task"));
    }
    assert(fault_views(faults@) =~= spawn_faults(node@));
    match first_of(&faults) {
        Some(message) => Err(message),
        None => {
            proof {
                lemma_spawn_is_complete(node@);
            }
            match (id, label, agent, task, cwd, output) {
                (Ok(id), Ok(label), Ok(Some(agent)), Ok(Some(task)), Ok(cwd), Ok(output)) => Ok(
                    SpawnSpec { id, label, agent, task, cwd, output },
                ),
                _ => Err(String::new()),
            }
        },
    }
}

fn read_join(node: &Json) -> (result: Result<JoinSpec, String>)
    ensures
        match result {
            Ok(j) => decoded_join(node@) == Ok::<JoinView, Seq<char>>(j@),
            Err(message) => decoded_join(node@) == Err::<JoinView, Seq<char>>(message@),
        },
{
    let id = read_text(given_of(part_of(node, 0, "id")));
    let label = read_text(given_of(part_of(node, 1, "label")));
    let from = read_text(part_of(node, 2, "from"));
    let mode = read_mode(part_of(node, 3, "mode"));
    let quorum = read_count(given_of(part_of(node, 4, "quorum")));
    let reducer = read_reducer_option(given_of(part_of(node, 5, "reducer")));
    let on_failure = read_failure(given_of(part_of(node, 6, "onFailure")));
    let mut faults: Vec<Option<String>> = Vec::new();
    if is_list(node) {
        let expected = "struct JoinSpec with 7 elements";
        faults.push(slot_of(node, 0, expected, fault_of(&id)));
        faults.push(slot_of(node, 1, expected, fault_of(&label)));
        faults.push(slot_of(node, 2, expected, fault_of(&from)));
        faults.push(slot_of(node, 3, expected, fault_of(&mode)));
        faults.push(slot_of(node, 4, expected, fault_of(&quorum)));
        faults.push(slot_of(node, 5, expected, fault_of(&reducer)));
        faults.push(slot_of(node, 6, expected, fault_of(&on_failure)));
        faults.push(surplus_of(node, 7, "7 elements in sequence"));
    } else {
        faults.push(fault_of(&from));
        faults.push(fault_of(&id));
        faults.push(fault_of(&label));
        faults.push(fault_of(&mode));
        faults.push(fault_of(&on_failure));
        faults.push(fault_of(&quorum));
        faults.push(fault_of(&reducer));
        faults.push(lack_of(&from, "from"));
        faults.push(lack_of(&mode, "mode"));
    }
    assert(fault_views(faults@) =~= join_faults(node@));
    match first_of(&faults) {
        Some(message) => Err(message),
        None => {
            proof {
                lemma_join_is_complete(node@);
            }
            match (id, label, from, mode, quorum, reducer, on_failure) {
                (
                    Ok(id),
                    Ok(label),
                    Ok(Some(from)),
                    Ok(Some(mode)),
                    Ok(quorum),
                    Ok(reducer),
                    Ok(on_failure),
                ) => Ok(JoinSpec { id, label, from, mode, quorum, reducer, on_failure }),
                _ => Err(String::new()),
            }
        },
    }
}

/// A join node with which nothing is wrong has all it needs.
proof fn lemma_join_is_complete(node: JsonView)
    requires
        first(join_faults(node)) is None,
    ensures
        decoded_text(given(part(node, 0, "id"@))) is Ok,
        decoded_text(given(part(node, 1, "label"@))) is Ok,
        decoded_text(part(node, 2, "from"@)) matches Ok(Some(_)),
        decoded_mode(part(node, 3, "mode"@)) matches Ok(Some(_)),
        decoded_count(given(part(node, 4, "quorum"@))) is Ok,
        decoded_reducer_option(given(part(node, 5, "reducer"@))) is Ok,
        decoded_failure(given(part(node, 6, "onFailure"@))) is Ok,
{
    let faults = join_faults(node);
    lemma_first(faults);
    assert(faults[0] is None && faults[1] is None && faults[2] is None && faults[3] is None);
    assert(faults[4] is None && faults[5] is None && faults[6] is None && faults[7] is None);
    if !(node is Array) {
        assert(faults[8] is None);
    }
}

/// A flow and what it should be agree.
pub open spec fn flow_agrees(
    actual: Result<FlowSpec, String>,
    wanted: Result<FlowView, Seq<char>>,
) -> bool {
    match actual {
        Ok(value) => wanted == Ok::<FlowView, Seq<char>>(value@),
        Err(message) => wanted == Err::<FlowView, Seq<char>>(message@),
    }
}

/// The content of a result with steps.
pub open spec fn steps_result(result: Result<Option<Vec<FlowSpec>>, String>) -> Result<
    Option<Seq<FlowView>>,
    Seq<char>,
> {
    match result {
        Ok(Some(steps)) => Ok(Some(flow::flow_views(steps@))),
        Ok(None) => Ok(None),
        Err(message) => Err(message@),
    }
}

fn assemble_sequence(node: &Json, steps: Result<Option<Vec<FlowSpec>>, String>) -> (result: Result<
    FlowSpec,
    String,
>)
    requires
        steps == Ok::<Option<Vec<FlowSpec>>, String>(None) ==> part(node@, 2, "steps"@) is None,
    ensures
        flow_agrees(result, assembled_sequence(node@, steps_result(steps))),
{
    let id = read_text(given_of(part_of(node, 0, "id")));
    let label = read_text(given_of(part_of(node, 1, "label")));
    let mut faults: Vec<Option<String>> = Vec::new();
    if is_list(node) {
        let expected = "struct SequenceSpec with 3 elements";
        faults.push(slot_of(node, 0, expected, fault_of(&id)));
        faults.push(slot_of(node, 1, expected, fault_of(&label)));
        faults.push(slot_of(node, 2, expected, fault_of(&steps)));
        faults.push(surplus_of(node, 3, "3 elements in sequence"));
    } else {
        faults.push(fault_of(&id));
        faults.push(fault_of(&label));
        faults.push(fault_of(&steps));
        faults.push(lack_of(&steps, "steps"));
    }
    let ghost read = steps_result(steps);
    assert(fault_views(faults@) =~= sequence_faults(node@, read));
    match first_of(&faults) {
        Some(message) => Err(message),
        None => {
            proof {
                lemma_sequence_is_complete(node@, read);
            }
            match (id, label, steps) {
                (Ok(id), Ok(label), Ok(Some(steps))) => {
                    let flow = FlowSpec::Sequence(SequenceSpec { id, label, steps });
                    proof {
                        flow.lemma_view();
                    }
                    Ok(flow)
                },
                _ => Err(String::new()),
            }
        },
    }
}

/// The content of a result with branches.
pub open spec fn branches_result(result: Result<Option<SortedMap<FlowSpec>>, String>) -> Result<
    Option<Seq<(Seq<char>, FlowView)>>,
    Seq<char>,
> {
    match result {
        Ok(Some(branches)) => Ok(Some(flow::branch_views(branches))),
        Ok(None) => Ok(None),
        Err(message) => Err(message@),
    }
}

fn assemble_fork(node: &Json, branches: Result<Option<SortedMap<FlowSpec>>, String>) -> (result:
    Result<FlowSpec, String>)
    requires
        branches == Ok::<Option<SortedMap<FlowSpec>>, String>(None) ==> part(
            node@,
            2,
            "branches"@,
        ) is None,
    ensures
        flow_agrees(result, assembled_fork(node@, branches_result(branches))),
{
    let id = read_text(part_of(node, 0, "id"));
    let label = read_text(given_of(part_of(node, 1, "label")));
    let concurrency = read_count(given_of(part_of(node, 3, "concurrency")));
    let mut faults: Vec<Option<String>> = Vec::new();
    if is_list(node) {
        let expected = "struct ForkSpec with 4 elements";
        faults.push(slot_of(node, 0, expected, fault_of(&id)));
        faults.push(slot_of(node, 1, expected, fault_of(&label)));
        faults.push(slot_of(node, 2, expected, fault_of(&branches)));
        faults.push(slot_of(node, 3, expected, fault_of(&concurrency)));
        faults.push(surplus_of(node, 4, "4 elements in sequence"));
    } else {
        faults.push(fault_of(&branches));
        faults.push(fault_of(&concurrency));
        faults.push(fault_of(&id));
        faults.push(fault_of(&label));
        faults.push(lack_of(&id, "id"));
        faults.push(lack_of(&branches, "branches"));
    }
    let ghost read = branches_result(branches);
    assert(fault_views(faults@) =~= fork_faults(node@, read));
    match first_of(&faults) {
        Some(message) => Err(message),
        None => {
            proof {
                lemma_fork_is_complete(node@, read);
            }
            match (id, label, branches, concurrency) {
                (Ok(Some(id)), Ok(label), Ok(Some(branches)), Ok(concurrency)) => {
                    let flow = FlowSpec::Fork(ForkSpec { id, label, branches, concurrency });
                    proof {
                        flow.lemma_view();
                    }
                    Ok(flow)
                },
                _ => Err(String::new()),
            }
        },
    }
}

/// The content of a result with a body.
pub open spec fn body_result(result: Result<Option<FlowSpec>, String>) -> Result<
    Option<FlowView>,
    Seq<char>,
> {
    match result {
        Ok(Some(body)) => Ok(Some(body@)),
        Ok(None) => Ok(None),
        Err(message) => Err(message@),
    }
}

fn assemble_loop(node: &Json, body: Result<Option<FlowSpec>, String>) -> (result: Result<
    FlowSpec,
    String,
>)
    requires
        body == Ok::<Option<FlowSpec>, String>(None) ==> part(node@, 2, "body"@) is None,
    ensures
        flow_agrees(result, assembled_loop(node@, body_result(body))),
{
    let id = read_text(part_of(node, 0, "id"));
    let label = read_text(given_of(part_of(node, 1, "label")));
    let max_iterations = read_count(part_of(node, 3, "maxIterations"));
    let mut faults: Vec<Option<String>> = Vec::new();
    if is_list(node) {
        let expected = "struct LoopSpec with 5 elements";
        faults.push(slot_of(node, 0, expected, fault_of(&id)));
        faults.push(slot_of(node, 1, expected, fault_of(&label)));
        faults.push(slot_of(node, 2, expected, fault_of(&body)));
        faults.push(slot_of(node, 3, expected, fault_of(&max_iterations)));
        faults.push(slot_of(node, 4, expected, None));
        faults.push(surplus_of(node, 5, "5 elements in sequence"));
    } else {
        faults.push(fault_of(&body));
        faults.push(fault_of(&id));
        faults.push(fault_of(&label));
        faults.push(fault_of(&max_iterations));
        faults.push(lack_of(&id, "id"));
        faults.push(lack_of(&body, "body"));
        faults.push(lack_of(&max_iterations, "maxIterations"));
    }
    let ghost read = body_result(body);
    assert(fault_views(faults@) =~= loop_faults(node@, read));
    match first_of(&faults) {
        Some(message) => Err(message),
        None => {
            proof {
                lemma_loop_is_complete(node@, read);
            }
            let continue_when = match given_of(part_of(node, 4, "continueWhen")) {
                Some(value) => Some(value.clone()),
                None => None,
            };
            match (id, label, body, max_iterations) {
                (Ok(Some(id)), Ok(label), Ok(Some(body)), Ok(Some(max_iterations))) => Ok(
                    FlowSpec::Loop(
                        LoopSpec { id, label, body: Box::new(body), max_iterations, continue_when },
                    ),
                ),
                _ => Err(String::new()),
            }
        },
    }
}

fn read_flow(node: &Json, nested: bool) -> (result: Result<FlowSpec, String>)
    ensures
        flow_agrees(result, decoded(node@, nested)),
    decreases node@, 0nat,
{
    match kind_of(node, nested) {
        Err(message) => Err(message),
        Ok(NodeKind::Spawn) => match read_spawn(node) {
            Ok(s) => Ok(FlowSpec::Spawn(s)),
            Err(message) => Err(message),
        },
        Ok(NodeKind::Join) => match read_join(node) {
            Ok(j) => Ok(FlowSpec::Join(j)),
            Err(message) => Err(message),
        },
        Ok(NodeKind::Sequence) => {
            proof {
                lemma_part_smaller(node@, 2, "steps"@);
            }
            let steps = match part_of(node, 2, "steps") {
                None => Ok(None),
                Some(Json::Array(items)) => {
                    proof {
                        Json::Array(*items).lemma_view();
                    }
                    match read_steps(items) {
                        Ok(steps) => Ok(Some(steps)),
                        Err(message) => Err(message),
                    }
                },
                Some(other) => Err(type_message(other, "a sequence")),
            };
            assemble_sequence(node, steps)
        },
        Ok(NodeKind::Fork) => {
            proof {
                lemma_part_smaller(node@, 2, "branches"@);
            }
            let branches = match part_of(node, 2, "branches") {
                None => Ok(None),
                Some(Json::Object(map)) => {
                    proof {
                        Json::Object(*map).lemma_view();
                    }
                    match read_branches(map) {
                        Ok(branches) => Ok(Some(branches)),
                        Err(message) => Err(message),
                    }
                },
                Some(other) => Err(type_message(other, "a map")),
            };
            assemble_fork(node, branches)
        },
        Ok(NodeKind::Loop) => {
            proof {
                lemma_part_smaller(node@, 2, "body"@);
            }
            let body = match part_of(node, 2, "body") {
                None => Ok(None),
                Some(body) => match read_flow(body, true) {
                    Ok(body) => Ok(Some(body)),
                    Err(message) => Err(message),
                },
            };
            assemble_loop(node, body)
        },
    }
}

fn read_steps(items: &Vec<Json>) -> (result: Result<Vec<FlowSpec>, String>)
    ensures
        match result {
            Ok(steps) => decoded_steps(JsonView::Array(json::elements(items@)), items@.len())
                == Ok::<Seq<FlowView>, Seq<char>>(flow::flow_views(steps@)),
            Err(message) => decoded_steps(JsonView::Array(json::elements(items@)), items@.len())
                == Err::<Seq<FlowView>, Seq<char>>(message@),
        },
    decreases JsonView::Array(json::elements(items@)), items@.len() + 1,
{
    let ghost all = JsonView::Array(json::elements(items@));
    let mut steps: Vec<FlowSpec> = Vec::new();
    let mut i: usize = 0;
    assert(flow::flow_views(steps@) =~= Seq::empty());
    while i < items.len()
        invariant
            all == JsonView::Array(json::elements(items@)),
            i <= items@.len(),
            decoded_steps(all, i as nat) == Ok::<Seq<FlowView>, Seq<char>>(
                flow::flow_views(steps@),
            ),
        decreases items@.len() - i,
    {
        proof {
            json::lemma_element_smaller(all, i as int);
        }
        match read_flow(&items[i], true) {
            Ok(step) => {
                let ghost before = flow::flow_views(steps@);
                steps.push(step);
                assert(flow::flow_views(steps@) =~= before.push(step@));
            },
            Err(message) => {
                proof {
                    lemma_steps_failure(all, i as nat, items@.len());
                }
                return Err(message);
            },
        }
        i += 1;
    }
    Ok(steps)
}

fn read_branches(map: &SortedMap<Json>) -> (result: Result<SortedMap<FlowSpec>, String>)
    ensures
        match result {
            Ok(branches) => decoded_branches(JsonView::Object(json::fields(*map)), map@.len())
                == Ok::<Seq<(Seq<char>, FlowView)>, Seq<char>>(flow::branch_views(branches)),
            Err(message) => decoded_branches(JsonView::Object(json::fields(*map)), map@.len())
                == Err::<Seq<(Seq<char>, FlowView)>, Seq<char>>(message@),
        },
    decreases JsonView::Object(json::fields(*map)), map@.len() + 1,
{
    let ghost all = JsonView::Object(json::fields(*map));
    map.reveal_order();
    let mut branches: SortedMap<FlowSpec> = SortedMap::new();
    let mut i: usize = 0;
    assert(flow::branch_views(branches) =~= Seq::empty());
    while i < map.len()
        invariant
            all == JsonView::Object(json::fields(*map)),
            ordered::ascending(map@),
            i <= map@.len(),
            decoded_branches(all, i as nat) == Ok::<Seq<(Seq<char>, FlowView)>, Seq<char>>(
                flow::branch_views(branches),
            ),
        decreases map@.len() - i,
    {
        proof {
            json::lemma_entry_smaller(all, i as int);
        }
        match read_flow(map.value_at(i), true) {
            Ok(branch) => {
                let key = map.key_at(i);
                proof {
                    let before = flow::branch_views(branches);
                    lemma_branches_keys(all, i as nat);
                    assert forall|j: int| 0 <= j < before.len() implies text::text_before(
                        (#[trigger] before[j]).0,
                        key@,
                    ) by {
                        assert(before[j].0 == map@[j].0);
                        assert(text::text_before(map@[j].0, map@[i as int].0));
                    }
                    ordered::lemma_put_last(before, key@, branch@);
                    ordered::lemma_put_mapped(
                        branches@,
                        |flow: FlowSpec| flow.view(),
                        key@,
                        branch,
                    );
                }
                let _ = branches.insert(key.clone(), branch);
            },
            Err(message) => {
                proof {
                    lemma_branches_failure(all, i as nat, map@.len());
                }
                return Err(message);
            },
        }
        i += 1;
    }
    Ok(branches)
}

/// A failing step decides the whole.
proof fn lemma_steps_failure(steps: JsonView, i: nat, n: nat)
    requires
        steps is Array,
        i < n <= steps->Array_0.len(),
        decoded_steps(steps, i + 1) is Err,
    ensures
        decoded_steps(steps, n) == decoded_steps(steps, i + 1),
    decreases n,
{
    if n > i + 1 {
        lemma_steps_failure(steps, i, (n - 1) as nat);
    }
}

/// A failing branch decides the whole.
proof fn lemma_branches_failure(branches: JsonView, i: nat, n: nat)
    requires
        branches is Object,
        i < n <= branches->Object_0.len(),
        decoded_branches(branches, i + 1) is Err,
    ensures
        decoded_branches(branches, n) == decoded_branches(branches, i + 1),
    decreases n,
{
    if n > i + 1 {
        lemma_branches_failure(branches, i, (n - 1) as nat);
    }
}

/// Decoded branches keep their keys.
pub proof fn lemma_branches_keys(branches: JsonView, n: nat)
    requires
        branches is Object,
        n <= branches->Object_0.len(),
    ensures
        decoded_branches(branches, n) matches Ok(done) ==> {
            &&& done.len() == n
            &&& forall|i: int|
                0 <= i < n ==> (#[trigger] done[i]).0 == branches->Object_0[i].0
        },
    decreases n,
{
    if n > 0 {
        lemma_branches_keys(branches, (n - 1) as nat);
    }
}

impl FlowSpec {
    /// The flow that a canonical JSON value denotes.
    pub fn from_json(node: &Json) -> (result: Result<FlowSpec, String>)
        ensures
            flow_agrees(result, decoded(node@, false)),
    {
        read_flow(node, false)
    }
}

// ---------------------------------------------------------------------------
// Executable writing
// ---------------------------------------------------------------------------

fn write_count(n: usize) -> (value: Json)
    ensures
        value@ == encoded_count(n),
{
    Json::Number(JsonNumber::Unsigned(n as u64))
}

fn write_count_option(n: Option<usize>) -> (value: Option<Json>)
    ensures
        canonical::json_option(value) == match n {
            Some(n) => Some(encoded_count(n)),
            None => None,
        },
{
    match n {
        Some(n) => Some(write_count(n)),
        None => None,
    }
}

fn write_output(output: Option<OutputMode>) -> (value: Option<Json>)
    ensures
        canonical::json_option(value) == encoded_output(output),
{
    match output {
        Some(OutputMode::Text) => Some(Json::text("text")),
        Some(OutputMode::Json) => Some(Json::text("json")),
        None => None,
    }
}

fn write_reducer(reducer: &JoinReducer) -> (value: Json)
    ensures
        value@ == encoded_reducer(reducer@),
{
    let mut map: SortedMap<Json> = SortedMap::new();
    assert(json::fields(map) =~= Seq::empty());
    match reducer {
        JoinReducer::Collect => {
            json::set_field(&mut map, "kind".to_owned(), Json::text("collect"));
        },
        JoinReducer::Agent(r) => {
            json::set_field(&mut map, "kind".to_owned(), Json::text("agent"));
            json::set_field(&mut map, "agent".to_owned(), Json::text(r.agent.as_str()));
            json::set_field(&mut map, "task".to_owned(), Json::text(r.task.as_str()));
            match write_output(r.output) {
                Some(output) => json::set_field(&mut map, "output".to_owned(), output),
                None => {},
            }
        },
    }
    let value = Json::Object(map);
    proof {
        value.lemma_view();
    }
    value
}

fn write_join(j: &JoinSpec) -> (value: Json)
    ensures
        value@ == encoded_join(j@),
{
    let mode = match j.mode {
        JoinMode::All => Json::text("all"),
        JoinMode::Any => Json::text("any"),
        JoinMode::Quorum => Json::text("quorum"),
    };
    let reducer = match &j.reducer {
        Some(reducer) => Some(write_reducer(reducer)),
        None => None,
    };
    let on_failure = match j.on_failure {
        Some(OnFailure::FailFast) => Some(Json::text("failFast")),
        Some(OnFailure::CollectErrors) => Some(Json::text("collectErrors")),
        None => None,
    };
    canonical::join_object(
        flow::copied_text(&j.id),
        flow::copied_text(&j.label),
        Some(Json::text(j.from.as_str())),
        Some(mode),
        write_count_option(j.quorum),
        reducer,
        on_failure,
    )
}

impl FlowSpec {
    /// The canonical JSON value of the flow.
    pub fn to_json(&self) -> (value: Json)
        ensures
            value@ == encoded(self@),
        decreases self@,
    {
        proof {
            self.lemma_view();
        }
        match self {
            FlowSpec::Spawn(s) => canonical::spawn_object(
                flow::copied_text(&s.id),
                flow::copied_text(&s.label),
                s.agent.clone(),
                s.task.clone(),
                flow::copied_text(&s.cwd),
                write_output(s.output),
            ),
            FlowSpec::Join(j) => write_join(j),
            FlowSpec::Sequence(s) => {
                let mut steps: Vec<Json> = Vec::new();
                let mut i: usize = 0;
                let ghost all = self@->Sequence_0.steps;
                assert(json::elements(steps@) =~= encoded_steps(all, 0));
                while i < s.steps.len()
                    invariant
                        self@ is Sequence,
                        all == self@->Sequence_0.steps,
                        all == flow::flow_views(s.steps@),
                        i <= s.steps@.len(),
                        json::elements(steps@) == encoded_steps(all, i as nat),
                    decreases s.steps@.len() - i,
                {
                    proof {
                        assert(decreases_to!(self@ => self@->Sequence_0));
                        assert(decreases_to!(self@->Sequence_0 => all));
                        assert(decreases_to!(all => all[i as int]));
                    }
                    let ghost before = json::elements(steps@);
                    let step = s.steps[i].to_json();
                    steps.push(step);
                    assert(json::elements(steps@) =~= before.push(step@));
                    i += 1;
                }
                canonical::sequence_object(flow::copied_text(&s.id), flow::copied_text(&s.label), steps)
            },
            FlowSpec::Fork(f) => {
                let mut branches: SortedMap<Json> = SortedMap::new();
                let mut i: usize = 0;
                f.branches.reveal_order();
                let ghost all = self@->Fork_0.branches;
                assert(json::fields(branches) =~= encoded_branches(all, 0));
                while i < f.branches.len()
                    invariant
                        self@ is Fork,
                        all == self@->Fork_0.branches,
                        all == flow::branch_views(f.branches),
                        ordered::ascending(f.branches@),
                        i <= f.branches@.len(),
                        json::fields(branches) == encoded_branches(all, i as nat),
                    decreases f.branches@.len() - i,
                {
                    proof {
                        assert(decreases_to!(self@ => self@->Fork_0));
                        assert(decreases_to!(self@->Fork_0 => all));
                        assert(decreases_to!(all => all[i as int]));
                        assert(decreases_to!(all[i as int] => all[i as int].1));
                    }
                    let value = f.branches.value_at(i).to_json();
                    let key = f.branches.key_at(i);
                    proof {
                        let before = json::fields(branches);
                        lemma_encoded_branches(all, i as nat);
                        assert forall|j: int| 0 <= j < before.len() implies text::text_before(
                            (#[trigger] before[j]).0,
                            key@,
                        ) by {
                            assert(before[j].0 == f.branches@[j].0);
                            assert(text::text_before(f.branches@[j].0, f.branches@[i as int].0));
                        }
                        ordered::lemma_put_last(before, key@, value@);
                    }
                    json::set_field(&mut branches, key.clone(), value);
                    i += 1;
                }
                canonical::fork_object(
                    f.id.clone(),
                    flow::copied_text(&f.label),
                    write_count_option(f.concurrency),
                    branches,
                )
            },
            FlowSpec::Loop(l) => {
                proof {
                    assert(decreases_to!(self@ => self@->Loop_0));
                    assert(decreases_to!(self@->Loop_0 => self@->Loop_0.body));
                }
                let body = l.body.to_json();
                let continue_when = match &l.continue_when {
                    Some(value) => Some(value.clone()),
                    None => None,
                };
                canonical::loop_object(
                    l.id.clone(),
                    flow::copied_text(&l.label),
                    body,
                    Some(write_count(l.max_iterations)),
                    continue_when,
                )
            },
        }
    }
}

} // verus!
