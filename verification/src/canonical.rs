//! The canonical JSON shape of each kind of node.
//!
//! A node is an object with its `kind`, its recognised fields, and nothing
//! else; a field without a value is left out.

use vstd::prelude::*;
use vstd::string::*;
use crate::flow;
use crate::json;
use crate::json::{Json, JsonView};
use crate::ordered;
use crate::ordered::SortedMap;

verus! {

broadcast use vstd::string::group_string_axioms;

/// An object that holds its kind and, where given, an id and a label.
pub open spec fn head_fields(
    kind: Seq<char>,
    id: Option<Seq<char>>,
    label: Option<Seq<char>>,
) -> Seq<(Seq<char>, JsonView)> {
    let entries = ordered::put(Seq::empty(), "kind"@, JsonView::Text(kind));
    let entries = json::put_text(entries, "id"@, id);
    json::put_text(entries, "label"@, label)
}

/// The canonical object of a spawn node.
pub open spec fn spawn_shape(
    id: Option<Seq<char>>,
    label: Option<Seq<char>>,
    agent: Seq<char>,
    task: Seq<char>,
    cwd: Option<Seq<char>>,
    output: Option<JsonView>,
) -> JsonView {
    let entries = head_fields("spawn"@, id, label);
    let entries = ordered::put(entries, "agent"@, JsonView::Text(agent));
    let entries = ordered::put(entries, "task"@, JsonView::Text(task));
    let entries = json::put_text(entries, "cwd"@, cwd);
    JsonView::Object(ordered::put_given(entries, "output"@, output))
}

/// The canonical object of a sequence node.
pub open spec fn sequence_shape(
    id: Option<Seq<char>>,
    label: Option<Seq<char>>,
    steps: Seq<JsonView>,
) -> JsonView {
    let entries = head_fields("sequence"@, id, label);
    JsonView::Object(ordered::put(entries, "steps"@, JsonView::Array(steps)))
}

/// The canonical object of a fork node.
pub open spec fn fork_shape(
    id: Seq<char>,
    label: Option<Seq<char>>,
    concurrency: Option<JsonView>,
    branches: Seq<(Seq<char>, JsonView)>,
) -> JsonView {
    let entries = head_fields("fork"@, Some(id), label);
    let entries = ordered::put_given(entries, "concurrency"@, concurrency);
    JsonView::Object(ordered::put(entries, "branches"@, JsonView::Object(branches)))
}

/// The canonical object of a join node.
pub open spec fn join_shape(
    id: Option<Seq<char>>,
    label: Option<Seq<char>>,
    from: Option<JsonView>,
    mode: Option<JsonView>,
    quorum: Option<JsonView>,
    reducer: Option<JsonView>,
    on_failure: Option<JsonView>,
) -> JsonView {
    let entries = head_fields("join"@, id, label);
    let entries = ordered::put_given(entries, "from"@, from);
    let entries = ordered::put_given(entries, "mode"@, mode);
    let entries = ordered::put_given(entries, "quorum"@, quorum);
    let entries = ordered::put_given(entries, "reducer"@, reducer);
    JsonView::Object(ordered::put_given(entries, "onFailure"@, on_failure))
}

/// The canonical object of a loop node.
pub open spec fn loop_shape(
    id: Seq<char>,
    label: Option<Seq<char>>,
    body: JsonView,
    max_iterations: Option<JsonView>,
    continue_when: Option<JsonView>,
) -> JsonView {
    let entries = head_fields("loop"@, Some(id), label);
    let entries = ordered::put(entries, "body"@, body);
    let entries = ordered::put_given(entries, "maxIterations"@, max_iterations);
    JsonView::Object(ordered::put_given(entries, "continueWhen"@, continue_when))
}

/// The content of an optional value.
pub open spec fn json_option(value: Option<Json>) -> Option<JsonView> {
    match value {
        Some(value) => Some(value@),
        None => None,
    }
}

fn set_text(map: &mut SortedMap<Json>, key: &str, value: Option<String>)
    ensures
        json::fields(*final(map)) == json::put_text(
            json::fields(*old(map)),
            key@,
            flow::text_option(value),
        ),
{
    match value {
        Some(value) => json::set_field(map, key.to_owned(), Json::Text(value)),
        None => {},
    }
}

fn set_given(map: &mut SortedMap<Json>, key: &str, value: Option<Json>)
    ensures
        json::fields(*final(map)) == ordered::put_given(
            json::fields(*old(map)),
            key@,
            json_option(value),
        ),
{
    match value {
        Some(value) => json::set_field(map, key.to_owned(), value),
        None => {},
    }
}

fn head(kind: &str, id: Option<String>, label: Option<String>) -> (map: SortedMap<Json>)
    ensures
        json::fields(map) == head_fields(kind@, flow::text_option(id), flow::text_option(label)),
{
    let mut map: SortedMap<Json> = SortedMap::new();
    assert(json::fields(map) =~= Seq::empty());
    json::set_field(&mut map, "kind".to_owned(), Json::text(kind));
    set_text(&mut map, "id", id);
    set_text(&mut map, "label", label);
    map
}

fn object(map: SortedMap<Json>) -> (value: Json)
    ensures
        value@ == JsonView::Object(json::fields(map)),
{
    let value = Json::Object(map);
    proof {
        value.lemma_view();
    }
    value
}

/// Build the canonical object of a spawn node.
pub fn spawn_object(
    id: Option<String>,
    label: Option<String>,
    agent: String,
    task: String,
    cwd: Option<String>,
    output: Option<Json>,
) -> (value: Json)
    ensures
        value@ == spawn_shape(
            flow::text_option(id),
            flow::text_option(label),
            agent@,
            task@,
            flow::text_option(cwd),
            json_option(output),
        ),
{
    let mut map = head("spawn", id, label);
    json::set_field(&mut map, "agent".to_owned(), Json::Text(agent));
    json::set_field(&mut map, "task".to_owned(), Json::Text(task));
    set_text(&mut map, "cwd", cwd);
    set_given(&mut map, "output", output);
    object(map)
}

/// Build the canonical object of a sequence node.
pub fn sequence_object(id: Option<String>, label: Option<String>, steps: Vec<Json>) -> (value: Json)
    ensures
        value@ == sequence_shape(
            flow::text_option(id),
            flow::text_option(label),
            json::elements(steps@),
        ),
{
    let mut map = head("sequence", id, label);
    let steps = Json::Array(steps);
    proof {
        steps.lemma_view();
    }
    json::set_field(&mut map, "steps".to_owned(), steps);
    object(map)
}

/// Build the canonical object of a fork node.
pub fn fork_object(
    id: String,
    label: Option<String>,
    concurrency: Option<Json>,
    branches: SortedMap<Json>,
) -> (value: Json)
    ensures
        value@ == fork_shape(
            id@,
            flow::text_option(label),
            json_option(concurrency),
            json::fields(branches),
        ),
{
    let mut map = head("fork", Some(id), label);
    set_given(&mut map, "concurrency", concurrency);
    json::set_field(&mut map, "branches".to_owned(), object(branches));
    object(map)
}

/// Build the canonical object of a join node.
pub fn join_object(
    id: Option<String>,
    label: Option<String>,
    from: Option<Json>,
    mode: Option<Json>,
    quorum: Option<Json>,
    reducer: Option<Json>,
    on_failure: Option<Json>,
) -> (value: Json)
    ensures
        value@ == join_shape(
            flow::text_option(id),
            flow::text_option(label),
            json_option(from),
            json_option(mode),
            json_option(quorum),
            json_option(reducer),
            json_option(on_failure),
        ),
{
    let mut map = head("join", id, label);
    set_given(&mut map, "from", from);
    set_given(&mut map, "mode", mode);
    set_given(&mut map, "quorum", quorum);
    set_given(&mut map, "reducer", reducer);
    set_given(&mut map, "onFailure", on_failure);
    object(map)
}

/// Build the canonical object of a loop node.
pub fn loop_object(
    id: String,
    label: Option<String>,
    body: Json,
    max_iterations: Option<Json>,
    continue_when: Option<Json>,
) -> (value: Json)
    ensures
        value@ == loop_shape(
            id@,
            flow::text_option(label),
            body@,
            json_option(max_iterations),
            json_option(continue_when),
        ),
{
    let mut map = head("loop", Some(id), label);
    json::set_field(&mut map, "body".to_owned(), body);
    set_given(&mut map, "maxIterations", max_iterations);
    set_given(&mut map, "continueWhen", continue_when);
    object(map)
}

// ---------------------------------------------------------------------------
// What the shapes hold
// ---------------------------------------------------------------------------

/// The first two code points and the length of a text, which tell all names in
/// a flow file apart.
pub open spec fn mark(name: Seq<char>) -> (int, int, int) {
    (name[0] as int, name[1] as int, name.len() as int)
}

/// The marks of the names in a flow file.
pub proof fn lemma_marks()
    ensures
        mark("kind"@) == (107int, 105int, 4int),
        mark("id"@) == (105int, 100int, 2int),
        mark("label"@) == (108int, 97int, 5int),
        mark("agent"@) == (97int, 103int, 5int),
        mark("task"@) == (116int, 97int, 4int),
        mark("cwd"@) == (99int, 119int, 3int),
        mark("output"@) == (111int, 117int, 6int),
        mark("steps"@) == (115int, 116int, 5int),
        mark("branches"@) == (98int, 114int, 8int),
        mark("concurrency"@) == (99int, 111int, 11int),
        mark("from"@) == (102int, 114int, 4int),
        mark("mode"@) == (109int, 111int, 4int),
        mark("quorum"@) == (113int, 117int, 6int),
        mark("reducer"@) == (114int, 101int, 7int),
        mark("onFailure"@) == (111int, 110int, 9int),
        mark("body"@) == (98int, 111int, 4int),
        mark("maxIterations"@) == (109int, 97int, 13int),
        mark("continueWhen"@) == (99int, 111int, 12int),
        mark("taskTemplate"@) == (116int, 97int, 12int),
        mark("spawn"@) == (115int, 112int, 5int),
        mark("sequence"@) == (115int, 101int, 8int),
        mark("fork"@) == (102int, 111int, 4int),
        mark("join"@) == (106int, 111int, 4int),
        mark("loop"@) == (108int, 111int, 4int),
        mark("collect"@) == (99int, 111int, 7int),
        mark("text"@) == (116int, 101int, 4int),
        mark("json"@) == (106int, 115int, 4int),
        mark("all"@) == (97int, 108int, 3int),
        mark("any"@) == (97int, 110int, 3int),
        mark("failFast"@) == (102int, 97int, 8int),
        mark("collectErrors"@) == (99int, 111int, 13int),
{
    reveal_strlit("kind");
    reveal_strlit("id");
    reveal_strlit("label");
    reveal_strlit("agent");
    reveal_strlit("task");
    reveal_strlit("cwd");
    reveal_strlit("output");
    reveal_strlit("steps");
    reveal_strlit("branches");
    reveal_strlit("concurrency");
    reveal_strlit("from");
    reveal_strlit("mode");
    reveal_strlit("quorum");
    reveal_strlit("reducer");
    reveal_strlit("onFailure");
    reveal_strlit("body");
    reveal_strlit("maxIterations");
    reveal_strlit("continueWhen");
    reveal_strlit("taskTemplate");
    reveal_strlit("spawn");
    reveal_strlit("sequence");
    reveal_strlit("fork");
    reveal_strlit("join");
    reveal_strlit("loop");
    reveal_strlit("collect");
    reveal_strlit("text");
    reveal_strlit("json");
    reveal_strlit("all");
    reveal_strlit("any");
    reveal_strlit("failFast");
    reveal_strlit("collectErrors");
}

/// An optional text as an optional JSON value.
pub open spec fn text_value(text: Option<Seq<char>>) -> Option<JsonView> {
    match text {
        Some(text) => Some(JsonView::Text(text)),
        None => None,
    }
}

/// What a spawn object holds.
pub proof fn lemma_spawn_shape(
    id: Option<Seq<char>>,
    label: Option<Seq<char>>,
    agent: Seq<char>,
    task: Seq<char>,
    cwd: Option<Seq<char>>,
    output: Option<JsonView>,
)
    ensures
        spawn_shape(id, label, agent, task, cwd, output) is Object,
        ({
            let entries = spawn_shape(id, label, agent, task, cwd, output)->Object_0;
            &&& ordered::lookup(entries, "kind"@) == Some(JsonView::Text("spawn"@))
            &&& ordered::lookup(entries, "id"@) == text_value(id)
            &&& ordered::lookup(entries, "label"@) == text_value(label)
            &&& ordered::lookup(entries, "agent"@) == Some(JsonView::Text(agent))
            &&& ordered::lookup(entries, "task"@) == Some(JsonView::Text(task))
            &&& ordered::lookup(entries, "cwd"@) == text_value(cwd)
            &&& ordered::lookup(entries, "output"@) == output
        }),
{
    broadcast use ordered::lemma_lookup_put;

    lemma_marks();
}

/// What a sequence object holds.
pub proof fn lemma_sequence_shape(
    id: Option<Seq<char>>,
    label: Option<Seq<char>>,
    steps: Seq<JsonView>,
)
    ensures
        sequence_shape(id, label, steps) is Object,
        ({
            let entries = sequence_shape(id, label, steps)->Object_0;
            &&& ordered::lookup(entries, "kind"@) == Some(JsonView::Text("sequence"@))
            &&& ordered::lookup(entries, "id"@) == text_value(id)
            &&& ordered::lookup(entries, "label"@) == text_value(label)
            &&& ordered::lookup(entries, "steps"@) == Some(JsonView::Array(steps))
        }),
{
    broadcast use ordered::lemma_lookup_put;

    lemma_marks();
}

/// What a fork object holds, and that it holds nothing to hand down.
pub proof fn lemma_fork_shape(
    id: Seq<char>,
    label: Option<Seq<char>>,
    concurrency: Option<JsonView>,
    branches: Seq<(Seq<char>, JsonView)>,
)
    ensures
        fork_shape(id, label, concurrency, branches) is Object,
        ({
            let entries = fork_shape(id, label, concurrency, branches)->Object_0;
            &&& ordered::lookup(entries, "kind"@) == Some(JsonView::Text("fork"@))
            &&& ordered::lookup(entries, "id"@) == Some(JsonView::Text(id))
            &&& ordered::lookup(entries, "label"@) == text_value(label)
            &&& ordered::lookup(entries, "concurrency"@) == concurrency
            &&& ordered::lookup(entries, "branches"@) == Some(JsonView::Object(branches))
            &&& ordered::lookup(entries, "agent"@) is None
            &&& ordered::lookup(entries, "taskTemplate"@) is None
            &&& ordered::lookup(entries, "cwd"@) is None
            &&& ordered::lookup(entries, "output"@) is None
        }),
{
    broadcast use ordered::lemma_lookup_put;

    lemma_marks();
}

/// What a join object holds.
pub proof fn lemma_join_shape(
    id: Option<Seq<char>>,
    label: Option<Seq<char>>,
    from: Option<JsonView>,
    mode: Option<JsonView>,
    quorum: Option<JsonView>,
    reducer: Option<JsonView>,
    on_failure: Option<JsonView>,
)
    ensures
        join_shape(id, label, from, mode, quorum, reducer, on_failure) is Object,
        ({
            let entries = join_shape(
                id,
                label,
                from,
                mode,
                quorum,
                reducer,
                on_failure,
            )->Object_0;
            &&& ordered::lookup(entries, "kind"@) == Some(JsonView::Text("join"@))
            &&& ordered::lookup(entries, "id"@) == text_value(id)
            &&& ordered::lookup(entries, "label"@) == text_value(label)
            &&& ordered::lookup(entries, "from"@) == from
            &&& ordered::lookup(entries, "mode"@) == mode
            &&& ordered::lookup(entries, "quorum"@) == quorum
            &&& ordered::lookup(entries, "reducer"@) == reducer
            &&& ordered::lookup(entries, "onFailure"@) == on_failure
        }),
{
    broadcast use ordered::lemma_lookup_put;

    lemma_marks();
}

/// What a loop object holds.
pub proof fn lemma_loop_shape(
    id: Seq<char>,
    label: Option<Seq<char>>,
    body: JsonView,
    max_iterations: Option<JsonView>,
    continue_when: Option<JsonView>,
)
    ensures
        loop_shape(id, label, body, max_iterations, continue_when) is Object,
        ({
            let entries = loop_shape(
                id,
                label,
                body,
                max_iterations,
                continue_when,
            )->Object_0;
            &&& ordered::lookup(entries, "kind"@) == Some(JsonView::Text("loop"@))
            &&& ordered::lookup(entries, "id"@) == Some(JsonView::Text(id))
            &&& ordered::lookup(entries, "label"@) == text_value(label)
            &&& ordered::lookup(entries, "body"@) == Some(body)
            &&& ordered::lookup(entries, "maxIterations"@) == max_iterations
            &&& ordered::lookup(entries, "continueWhen"@) == continue_when
        }),
{
    broadcast use ordered::lemma_lookup_put;

    lemma_marks();
}

} // verus!
