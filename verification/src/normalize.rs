//! Lowering of authored flows to canonical form.
//!
//! An author may write a bare string for a spawn on that agent, leave out the
//! `kind` of a spawn, and let a fork hand `agent`, `taskTemplate`, `cwd` and
//! `output` down to its branches.

use vstd::prelude::*;
use vstd::string::*;
use crate::canonical;
use crate::flow;
use crate::json;
use crate::json::{Json, JsonNumber, JsonView, NumberView};
use crate::ordered;
use crate::ordered::SortedMap;
use crate::text;

verus! {

broadcast use vstd::string::group_string_axioms;

/// What a fork hands down to one of its branches.
pub struct SpawnDefaults {
    pub agent: Option<String>,
    pub task_template: Option<String>,
    pub cwd: Option<String>,
    pub output: Option<Json>,
    pub branch_key: Option<String>,
}

/// The content of [`SpawnDefaults`].
pub struct DefaultsView {
    pub agent: Option<Seq<char>>,
    pub task_template: Option<Seq<char>>,
    pub cwd: Option<Seq<char>>,
    pub output: Option<JsonView>,
    pub branch_key: Option<Seq<char>>,
}

impl SpawnDefaults {
    pub open spec fn view(self) -> DefaultsView {
        DefaultsView {
            agent: flow::text_option(self.agent),
            task_template: flow::text_option(self.task_template),
            cwd: flow::text_option(self.cwd),
            output: canonical::json_option(self.output),
            branch_key: flow::text_option(self.branch_key),
        }
    }

    /// Nothing is handed down.
    pub fn none() -> (defaults: SpawnDefaults)
        ensures
            defaults@ == no_defaults(),
    {
        SpawnDefaults { agent: None, task_template: None, cwd: None, output: None, branch_key: None }
    }
}

/// Nothing is handed down.
pub open spec fn no_defaults() -> DefaultsView {
    DefaultsView { agent: None, task_template: None, cwd: None, output: None, branch_key: None }
}

/// The first value, or else the second.
pub open spec fn first_given<T>(first: Option<T>, second: Option<T>) -> Option<T> {
    match first {
        Some(value) => Some(value),
        None => second,
    }
}

/// The task of a branch that gives none itself: the fork's template with
/// `{branch}` replaced by the branch key, or else the key.
pub open spec fn branch_task(defaults: DefaultsView) -> Option<Seq<char>> {
    match defaults.task_template {
        Some(template) => Some(
            text::replaced(
                template,
                "{branch}"@,
                match defaults.branch_key {
                    Some(key) => key,
                    None => Seq::empty(),
                },
            ),
        ),
        None => defaults.branch_key,
    }
}

/// There is a text and it is more than white space.
pub open spec fn inked(text: Option<Seq<char>>) -> bool {
    text matches Some(text) && !text::blank(text)
}

/// A spawn written as an object, lowered.
pub open spec fn lowered_spawn(
    entries: Seq<(Seq<char>, JsonView)>,
    label: Seq<char>,
    defaults: DefaultsView,
) -> Result<JsonView, Seq<char>> {
    let agent = first_given(json::text_field(entries, "agent"@), defaults.agent);
    let task = first_given(json::text_field(entries, "task"@), branch_task(defaults));
    if !inked(agent) {
        Err(
            label
                + ".agent must be a non-empty string or inherit one from the parent fork."@,
        )
    } else if !inked(task) {
        Err(
            label
                + ".task must be a non-empty string or inherit one from fork.taskTemplate."@,
        )
    } else {
        Ok(
            canonical::spawn_shape(
                json::text_field(entries, "id"@),
                json::text_field(entries, "label"@),
                agent->0,
                task->0,
                first_given(json::text_field(entries, "cwd"@), defaults.cwd),
                first_given(ordered::lookup(entries, "output"@), defaults.output),
            ),
        )
    }
}

/// What a fork object hands down to the branch `key`.
pub open spec fn handed_down(entries: Seq<(Seq<char>, JsonView)>, key: Seq<char>) -> DefaultsView {
    DefaultsView {
        agent: json::text_field(entries, "agent"@),
        task_template: json::text_field(entries, "taskTemplate"@),
        cwd: json::text_field(entries, "cwd"@),
        output: ordered::lookup(entries, "output"@),
        branch_key: Some(key),
    }
}

/// The label of the step at position `i`.
pub open spec fn step_label(label: Seq<char>, i: int) -> Seq<char> {
    label + ".steps["@ + text::decimal_text(i as nat) + "]"@
}

/// The label of the branch `key`.
pub open spec fn branch_label(label: Seq<char>, key: Seq<char>) -> Seq<char> {
    label + ".branches."@ + key
}

/// The label of a loop's body.
pub open spec fn body_label(label: Seq<char>) -> Seq<char> {
    label + ".body"@
}

/// An authored value, lowered to canonical form; `label` says where it stands,
/// for messages.
pub open spec fn lowered(raw: JsonView, label: Seq<char>, defaults: DefaultsView) -> Result<
    JsonView,
    Seq<char>,
>
    decreases raw, 0nat,
{
    match raw {
        JsonView::Text(agent) => lowered_spawn(
            seq![("agent"@, JsonView::Text(agent))],
            label,
            defaults,
        ),
        JsonView::Object(entries) => {
            let kind = match json::text_field(entries, "kind"@) {
                Some(kind) => kind,
                None => "spawn"@,
            };
            let id = json::text_field(entries, "id"@);
            let title = json::text_field(entries, "label"@);
            if kind == "spawn"@ {
                lowered_spawn(entries, label, defaults)
            } else if kind == "sequence"@ {
                match raw.member("steps"@) {
                    Some(JsonView::Array(steps)) => {
                        proof {
                            json::lemma_member_smaller(raw, "steps"@);
                        }
                        match lowered_steps(JsonView::Array(steps), label, steps.len()) {
                            Ok(steps) => Ok(canonical::sequence_shape(id, title, steps)),
                            Err(message) => Err(message),
                        }
                    },
                    _ => Err(label + ".steps must be an array."@),
                }
            } else if kind == "fork"@ {
                match raw.member("branches"@) {
                    Some(JsonView::Object(branches)) if branches.len() > 0 => {
                        proof {
                            json::lemma_member_smaller(raw, "branches"@);
                        }
                        match lowered_branches(
                            JsonView::Object(branches),
                            label,
                            entries,
                            branches.len(),
                        ) {
                            Ok(branches) => Ok(
                                canonical::fork_shape(
                                    match id {
                                        Some(id) => id,
                                        None => "fork"@,
                                    },
                                    title,
                                    given_count(entries, "concurrency"@),
                                    branches,
                                ),
                            ),
                            Err(message) => Err(message),
                        }
                    },
                    _ => Err(label + ".branches must be a non-empty object."@),
                }
            } else if kind == "join"@ {
                Ok(
                    canonical::join_shape(
                        id,
                        title,
                        ordered::lookup(entries, "from"@),
                        ordered::lookup(entries, "mode"@),
                        ordered::lookup(entries, "quorum"@),
                        ordered::lookup(entries, "reducer"@),
                        ordered::lookup(entries, "onFailure"@),
                    ),
                )
            } else if kind == "loop"@ {
                match raw.member("body"@) {
                    Some(body) => {
                        proof {
                            json::lemma_member_smaller(raw, "body"@);
                        }
                        match lowered(body, body_label(label), no_defaults()) {
                            Ok(body) => Ok(
                                canonical::loop_shape(
                                    match id {
                                        Some(id) => id,
                                        None => "loop"@,
                                    },
                                    title,
                                    body,
                                    ordered::lookup(entries, "maxIterations"@),
                                    ordered::lookup(entries, "continueWhen"@),
                                ),
                            ),
                            Err(message) => Err(message),
                        }
                    },
                    None => Err(label + ".body is required for a loop."@),
                }
            } else {
                Err(
                    label + ".kind must be one of spawn, sequence, fork, join, loop (got "@
                        + text::debug_text(kind) + ")."@,
                )
            }
        },
        _ => Err(label + " must be an object or agent-name string."@),
    }
}

/// The first `n` steps of an array, lowered; the first failure where there is
/// one.
pub open spec fn lowered_steps(steps: JsonView, label: Seq<char>, n: nat) -> Result<
    Seq<JsonView>,
    Seq<char>,
>
    decreases steps, n,
{
    if n == 0 || !(steps is Array) || n > steps->Array_0.len() {
        Ok(Seq::empty())
    } else {
        match lowered_steps(steps, label, (n - 1) as nat) {
            Err(message) => Err(message),
            Ok(done) => {
                proof {
                    json::lemma_element_smaller(steps, n - 1);
                }
                match lowered(steps->Array_0[n - 1], step_label(label, n - 1), no_defaults()) {
                    Err(message) => Err(message),
                    Ok(step) => Ok(done.push(step)),
                }
            },
        }
    }
}

/// The first `n` branches of an object, lowered with what `fork` hands down;
/// the first failure where there is one.
pub open spec fn lowered_branches(
    branches: JsonView,
    label: Seq<char>,
    fork: Seq<(Seq<char>, JsonView)>,
    n: nat,
) -> Result<Seq<(Seq<char>, JsonView)>, Seq<char>>
    decreases branches, n,
{
    if n == 0 || !(branches is Object) || n > branches->Object_0.len() {
        Ok(Seq::empty())
    } else {
        match lowered_branches(branches, label, fork, (n - 1) as nat) {
            Err(message) => Err(message),
            Ok(done) => {
                let (key, value) = branches->Object_0[n - 1];
                proof {
                    json::lemma_entry_smaller(branches, n - 1);
                }
                match lowered(value, branch_label(label, key), handed_down(fork, key)) {
                    Err(message) => Err(message),
                    Ok(branch) => Ok(done.push((key, branch))),
                }
            },
        }
    }
}

/// The value under a key, where it is an integer in the range of `u64`.
pub open spec fn given_count(entries: Seq<(Seq<char>, JsonView)>, key: Seq<char>) -> Option<
    JsonView,
> {
    match ordered::lookup(entries, key) {
        Some(value) => match value.as_u64() {
            Some(n) => Some(JsonView::Number(NumberView::Integer(n as int))),
            None => None,
        },
        None => None,
    }
}

/// A result and what it should be agree.
pub open spec fn agrees(actual: Result<Json, String>, wanted: Result<JsonView, Seq<char>>) -> bool {
    match actual {
        Ok(value) => wanted == Ok::<JsonView, Seq<char>>(value@),
        Err(message) => wanted == Err::<JsonView, Seq<char>>(message@),
    }
}

/// The first text, or else a copy of the second.
fn or_copied(first: Option<String>, second: &Option<String>) -> (chosen: Option<String>)
    ensures
        flow::text_option(chosen) == first_given(
            flow::text_option(first),
            flow::text_option(*second),
        ),
{
    match first {
        Some(text) => Some(text),
        None => flow::copied_text(second),
    }
}

/// A copy of what an object holds under a key.
fn copied_field(map: &SortedMap<Json>, key: &str) -> (copy: Option<Json>)
    ensures
        canonical::json_option(copy) == ordered::lookup(json::fields(*map), key@),
{
    match json::field(map, key) {
        Some(value) => Some(value.clone()),
        None => None,
    }
}

/// A copy of the text that an object holds under a key.
fn copied_text(map: &SortedMap<Json>, key: &str) -> (copy: Option<String>)
    ensures
        flow::text_option(copy) == json::text_field(json::fields(*map), key@),
{
    json::str_field(map, key)
}

/// The task of a branch that gives none itself.
pub fn resolve_branch_task(defaults: &SpawnDefaults) -> (task: Option<String>)
    ensures
        flow::text_option(task) == branch_task(defaults@),
{
    match &defaults.task_template {
        Some(template) => {
            proof {
                reveal_strlit("{branch}");
            }
            let key: String = match &defaults.branch_key {
                Some(key) => key.clone(),
                None => String::new(),
            };
            Some(text::replace(template.as_str(), "{branch}", key.as_str()))
        },
        None => flow::copied_text(&defaults.branch_key),
    }
}

/// Lower a spawn written as an object.
pub fn normalize_spawn(
    map: &SortedMap<Json>,
    label: &str,
    defaults: &SpawnDefaults,
) -> (result: Result<Json, String>)
    ensures
        agrees(result, lowered_spawn(json::fields(*map), label@, defaults@)),
{
    let agent = or_copied(copied_text(map, "agent"), &defaults.agent);
    let agent = match agent {
        Some(agent) if !text::is_blank(agent.as_str()) => agent,
        _ => {
            return Err(
                text::join(
                    label,
                    ".agent must be a non-empty string or inherit one from the parent fork.",
                ),
            );
        },
    };
    let task = match copied_text(map, "task") {
        Some(task) => Some(task),
        None => resolve_branch_task(defaults),
    };
    let task = match task {
        Some(task) if !text::is_blank(task.as_str()) => task,
        _ => {
            return Err(
                text::join(
                    label,
                    ".task must be a non-empty string or inherit one from fork.taskTemplate.",
                ),
            );
        },
    };
    let cwd = or_copied(copied_text(map, "cwd"), &defaults.cwd);
    let output = match copied_field(map, "output") {
        Some(output) => Some(output),
        None => match &defaults.output {
            Some(output) => Some(output.clone()),
            None => None,
        },
    };
    Ok(
        canonical::spawn_object(
            copied_text(map, "id"),
            copied_text(map, "label"),
            agent,
            task,
            cwd,
            output,
        ),
    )
}

/// Lower an authored flow to canonical form.
pub fn normalize_value(raw: &Json, defaults: &SpawnDefaults) -> (result: Result<Json, String>)
    ensures
        agrees(result, lowered(raw@, "flow"@, defaults@)),
{
    normalize_value_inner(raw, "flow", defaults)
}

/// Lower an authored value that stands at `label`.
pub fn normalize_value_inner(raw: &Json, label: &str, defaults: &SpawnDefaults) -> (result: Result<
    Json,
    String,
>)
    ensures
        agrees(result, lowered(raw@, label@, defaults@)),
    decreases raw@, 0nat,
{
    proof {
        raw.lemma_view();
    }
    match raw {
        Json::Text(agent) => {
            let mut map: SortedMap<Json> = SortedMap::new();
            assert(json::fields(map) =~= Seq::empty());
            json::set_field(&mut map, "agent".to_owned(), Json::Text(agent.clone()));
            normalize_spawn(&map, label, defaults)
        },
        Json::Object(map) => {
            let kind: String = match copied_text(map, "kind") {
                Some(kind) => kind,
                None => "spawn".to_owned(),
            };
            if text::same_text(kind.as_str(), "spawn") {
                normalize_spawn(map, label, defaults)
            } else if text::same_text(kind.as_str(), "sequence") {
                proof {
                    json::lemma_member_smaller(raw@, "steps"@);
                }
                match json::field(map, "steps") {
                    Some(Json::Array(steps)) => {
                        assert(raw@.member("steps"@) == Some(Json::Array(*steps)@));
                        proof {
                            Json::Array(*steps).lemma_view();
                        }
                        match normalize_steps(steps, label) {
                            Ok(steps) => Ok(
                                canonical::sequence_object(
                                    copied_text(map, "id"),
                                    copied_text(map, "label"),
                                    steps,
                                ),
                            ),
                            Err(message) => Err(message),
                        }
                    },
                    _ => Err(text::join(label, ".steps must be an array.")),
                }
            } else if text::same_text(kind.as_str(), "fork") {
                proof {
                    json::lemma_member_smaller(raw@, "branches"@);
                }
                match json::field(map, "branches") {
                    Some(Json::Object(branches)) if !branches.is_empty() => {
                        assert(raw@.member("branches"@) == Some(Json::Object(*branches)@));
                        proof {
                            Json::Object(*branches).lemma_view();
                        }
                        match normalize_branches(branches, label, map) {
                            Ok(branches) => {
                                let id: String = match copied_text(map, "id") {
                                    Some(id) => id,
                                    None => "fork".to_owned(),
                                };
                                let concurrency = match json::field(map, "concurrency") {
                                    Some(value) => match value.as_u64() {
                                        Some(n) => Some(Json::Number(JsonNumber::Unsigned(n))),
                                        None => None,
                                    },
                                    None => None,
                                };
                                Ok(
                                    canonical::fork_object(
                                        id,
                                        copied_text(map, "label"),
                                        concurrency,
                                        branches,
                                    ),
                                )
                            },
                            Err(message) => Err(message),
                        }
                    },
                    other => {
                        proof {
                            if other is Some {
                                other->0.lemma_view();
                            }
                        }
                        Err(text::join(label, ".branches must be a non-empty object."))
                    },
                }
            } else if text::same_text(kind.as_str(), "join") {
                Ok(
                    canonical::join_object(
                        copied_text(map, "id"),
                        copied_text(map, "label"),
                        copied_field(map, "from"),
                        copied_field(map, "mode"),
                        copied_field(map, "quorum"),
                        copied_field(map, "reducer"),
                        copied_field(map, "onFailure"),
                    ),
                )
            } else if text::same_text(kind.as_str(), "loop") {
                proof {
                    json::lemma_member_smaller(raw@, "body"@);
                }
                match json::field(map, "body") {
                    Some(body) => {
                        assert(raw@.member("body"@) == Some(body@));
                        let at = text::join(label, ".body");
                        match normalize_value_inner(body, at.as_str(), &SpawnDefaults::none()) {
                            Ok(body) => {
                                let id: String = match copied_text(map, "id") {
                                    Some(id) => id,
                                    None => "loop".to_owned(),
                                };
                                Ok(
                                    canonical::loop_object(
                                        id,
                                        copied_text(map, "label"),
                                        body,
                                        copied_field(map, "maxIterations"),
                                        copied_field(map, "continueWhen"),
                                    ),
                                )
                            },
                            Err(message) => Err(message),
                        }
                    },
                    None => Err(text::join(label, ".body is required for a loop.")),
                }
            } else {
                let mut message = text::join(
                    label,
                    ".kind must be one of spawn, sequence, fork, join, loop (got ",
                );
                message.append(text::quoted(kind.as_str()).as_str());
                message.append(").");
                Err(message)
            }
        },
        _ => Err(text::join(label, " must be an object or agent-name string.")),
    }
}

/// Lower the steps of a sequence that stands at `label`.
fn normalize_steps(steps: &Vec<Json>, label: &str) -> (result: Result<Vec<Json>, String>)
    ensures
        match result {
            Ok(done) => lowered_steps(
                JsonView::Array(json::elements(steps@)),
                label@,
                steps@.len(),
            ) == Ok::<Seq<JsonView>, Seq<char>>(json::elements(done@)),
            Err(message) => lowered_steps(
                JsonView::Array(json::elements(steps@)),
                label@,
                steps@.len(),
            ) == Err::<Seq<JsonView>, Seq<char>>(message@),
        },
    decreases JsonView::Array(json::elements(steps@)), steps@.len() + 1,
{
    let ghost all = JsonView::Array(json::elements(steps@));
    let mut done: Vec<Json> = Vec::new();
    let mut i: usize = 0;
    assert(json::elements(done@) =~= Seq::empty());
    while i < steps.len()
        invariant
            all == JsonView::Array(json::elements(steps@)),
            i <= steps@.len(),
            lowered_steps(all, label@, i as nat) == Ok::<Seq<JsonView>, Seq<char>>(
                json::elements(done@),
            ),
        decreases steps@.len() - i,
    {
        let mut at = text::join3(label, ".steps[", text::decimal(i as u64).as_str());
        at.append("]");
        proof {
            json::lemma_element_smaller(all, i as int);
        }
        match normalize_value_inner(&steps[i], at.as_str(), &SpawnDefaults::none()) {
            Ok(step) => {
                let ghost before = json::elements(done@);
                done.push(step);
                assert(json::elements(done@) =~= before.push(step@));
            },
            Err(message) => {
                proof {
                    lemma_steps_failure(all, label@, i as nat, steps@.len());
                }
                return Err(message);
            },
        }
        i += 1;
    }
    Ok(done)
}

/// A failing step decides the whole.
proof fn lemma_steps_failure(steps: JsonView, label: Seq<char>, i: nat, n: nat)
    requires
        steps is Array,
        i < n <= steps->Array_0.len(),
        lowered_steps(steps, label, i + 1) is Err,
    ensures
        lowered_steps(steps, label, n) == lowered_steps(steps, label, i + 1),
    decreases n,
{
    if n > i + 1 {
        lemma_steps_failure(steps, label, i, (n - 1) as nat);
    }
}

/// A failing branch decides the whole.
proof fn lemma_branches_failure(
    branches: JsonView,
    label: Seq<char>,
    fork: Seq<(Seq<char>, JsonView)>,
    i: nat,
    n: nat,
)
    requires
        branches is Object,
        i < n <= branches->Object_0.len(),
        lowered_branches(branches, label, fork, i + 1) is Err,
    ensures
        lowered_branches(branches, label, fork, n) == lowered_branches(
            branches,
            label,
            fork,
            i + 1,
        ),
    decreases n,
{
    if n > i + 1 {
        lemma_branches_failure(branches, label, fork, i, (n - 1) as nat);
    }
}

/// Steps are lowered one by one.
pub proof fn lemma_steps_one_by_one(steps: JsonView, label: Seq<char>, n: nat)
    requires
        steps is Array,
        n <= steps->Array_0.len(),
    ensures
        lowered_steps(steps, label, n) matches Ok(done) ==> {
            &&& done.len() == n
            &&& forall|i: int|
                0 <= i < n ==> lowered(
                    steps->Array_0[i],
                    step_label(label, i),
                    no_defaults(),
                ) == Ok::<JsonView, Seq<char>>(#[trigger] done[i])
        },
    decreases n,
{
    if n > 0 {
        lemma_steps_one_by_one(steps, label, (n - 1) as nat);
    }
}

/// Branches are lowered one by one.
pub proof fn lemma_branches_one_by_one(
    branches: JsonView,
    label: Seq<char>,
    fork: Seq<(Seq<char>, JsonView)>,
    n: nat,
)
    requires
        branches is Object,
        n <= branches->Object_0.len(),
    ensures
        lowered_branches(branches, label, fork, n) matches Ok(done) ==> {
            &&& done.len() == n
            &&& forall|i: int|
                #![trigger done[i]]
                0 <= i < n ==> done[i].0 == branches->Object_0[i].0 && lowered(
                    branches->Object_0[i].1,
                    branch_label(label, branches->Object_0[i].0),
                    handed_down(fork, branches->Object_0[i].0),
                ) == Ok::<JsonView, Seq<char>>(done[i].1)
        },
    decreases n,
{
    if n > 0 {
        lemma_branches_one_by_one(branches, label, fork, (n - 1) as nat);
    }
}

/// Lower the branches of a fork that stands at `label`.
fn normalize_branches(branches: &SortedMap<Json>, label: &str, fork: &SortedMap<Json>) -> (result:
    Result<SortedMap<Json>, String>)
    ensures
        match result {
            Ok(done) => lowered_branches(
                JsonView::Object(json::fields(*branches)),
                label@,
                json::fields(*fork),
                branches@.len(),
            ) == Ok::<Seq<(Seq<char>, JsonView)>, Seq<char>>(json::fields(done)),
            Err(message) => lowered_branches(
                JsonView::Object(json::fields(*branches)),
                label@,
                json::fields(*fork),
                branches@.len(),
            ) == Err::<Seq<(Seq<char>, JsonView)>, Seq<char>>(message@),
        },
    decreases JsonView::Object(json::fields(*branches)), branches@.len() + 1,
{
    let ghost all = JsonView::Object(json::fields(*branches));
    let ghost from = json::fields(*fork);
    branches.reveal_order();
    let mut done: SortedMap<Json> = SortedMap::new();
    let mut i: usize = 0;
    assert(json::fields(done) =~= Seq::empty());
    while i < branches.len()
        invariant
            all == JsonView::Object(json::fields(*branches)),
            from == json::fields(*fork),
            ordered::ascending(branches@),
            i <= branches@.len(),
            lowered_branches(all, label@, from, i as nat) == Ok::<
                Seq<(Seq<char>, JsonView)>,
                Seq<char>,
            >(json::fields(done)),
        decreases branches@.len() - i,
    {
        let key = branches.key_at(i);
        let at = text::join3(label, ".branches.", key.as_str());
        let defaults = SpawnDefaults {
            agent: copied_text(fork, "agent"),
            task_template: copied_text(fork, "taskTemplate"),
            cwd: copied_text(fork, "cwd"),
            output: copied_field(fork, "output"),
            branch_key: Some(key.clone()),
        };
        proof {
            json::lemma_entry_smaller(all, i as int);
        }
        match normalize_value_inner(branches.value_at(i), at.as_str(), &defaults) {
            Ok(branch) => {
                proof {
                    let before = json::fields(done);
                    lemma_branches_one_by_one(all, label@, from, i as nat);
                    assert forall|j: int| 0 <= j < before.len() implies text::text_before(
                        (#[trigger] before[j]).0,
                        key@,
                    ) by {
                        assert(before[j].0 == branches@[j].0);
                        assert(text::text_before(branches@[j].0, branches@[i as int].0));
                    }
                    ordered::lemma_put_last(before, key@, branch@);
                }
                json::set_field(&mut done, key.clone(), branch);
            },
            Err(message) => {
                proof {
                    lemma_branches_failure(all, label@, from, i as nat, branches@.len());
                }
                return Err(message);
            },
        }
        i += 1;
    }
    Ok(done)
}

// ---------------------------------------------------------------------------
// Lowering what was lowered
// ---------------------------------------------------------------------------

/// Lowering leaves whatever it gave as it is, under any label, where no `cwd` and no
/// `output` are handed down.
pub proof fn lemma_lowering_is_a_fixed_point(
    raw: JsonView,
    label: Seq<char>,
    defaults: DefaultsView,
    place: Seq<char>,
    handed: DefaultsView,
)
    requires
        handed.cwd is None,
        handed.output is None,
    ensures
        lowered(raw, label, defaults) matches Ok(node) ==> lowered(node, place, handed) == Ok::<
            JsonView,
            Seq<char>,
        >(node),
    decreases raw, 0nat,
{
    canonical::lemma_marks();
    match lowered(raw, label, defaults) {
        Err(_) => {},
        Ok(node) => {
            let entries = match raw {
                JsonView::Text(agent) => seq![("agent"@, JsonView::Text(agent))],
                JsonView::Object(entries) => entries,
                _ => Seq::empty(),
            };
            let id = json::text_field(entries, "id"@);
            let title = json::text_field(entries, "label"@);
            let kind = match raw {
                JsonView::Object(_) => match json::text_field(entries, "kind"@) {
                    Some(kind) => kind,
                    None => "spawn"@,
                },
                _ => "spawn"@,
            };
            if kind == "spawn"@ {
                canonical::lemma_spawn_shape(
                    id,
                    title,
                    first_given(json::text_field(entries, "agent"@), defaults.agent)->0,
                    first_given(json::text_field(entries, "task"@), branch_task(defaults))->0,
                    first_given(json::text_field(entries, "cwd"@), defaults.cwd),
                    first_given(ordered::lookup(entries, "output"@), defaults.output),
                );
            } else if kind == "sequence"@ {
                json::lemma_member_smaller(raw, "steps"@);
                let steps = raw.member("steps"@)->0;
                let n = steps->Array_0.len();
                let done = lowered_steps(steps, label, n)->Ok_0;
                canonical::lemma_sequence_shape(id, title, done);
                lemma_steps_one_by_one(steps, label, n);
                lemma_lowered_steps_are_kept(steps, label, done, place, n);
                assert(done.take(n as int) =~= done);
            } else if kind == "fork"@ {
                json::lemma_member_smaller(raw, "branches"@);
                let branches = raw.member("branches"@)->0;
                let n = branches->Object_0.len();
                let done = lowered_branches(branches, label, entries, n)->Ok_0;
                canonical::lemma_fork_shape(
                    match id {
                        Some(id) => id,
                        None => "fork"@,
                    },
                    title,
                    given_count(entries, "concurrency"@),
                    done,
                );
                lemma_branches_one_by_one(branches, label, entries, n);
                lemma_lowered_branches_are_kept(
                    branches,
                    label,
                    entries,
                    done,
                    place,
                    node->Object_0,
                    n,
                );
                assert(done.take(n as int) =~= done);
            } else if kind == "join"@ {
                canonical::lemma_join_shape(
                    id,
                    title,
                    ordered::lookup(entries, "from"@),
                    ordered::lookup(entries, "mode"@),
                    ordered::lookup(entries, "quorum"@),
                    ordered::lookup(entries, "reducer"@),
                    ordered::lookup(entries, "onFailure"@),
                );
            } else {
                json::lemma_member_smaller(raw, "body"@);
                let body = raw.member("body"@)->0;
                canonical::lemma_loop_shape(
                    match id {
                        Some(id) => id,
                        None => "loop"@,
                    },
                    title,
                    lowered(body, body_label(label), no_defaults())->Ok_0,
                    ordered::lookup(entries, "maxIterations"@),
                    ordered::lookup(entries, "continueWhen"@),
                );
                lemma_lowering_is_a_fixed_point(
                    body,
                    body_label(label),
                    no_defaults(),
                    body_label(place),
                    no_defaults(),
                );
            }
        },
    }
}

proof fn lemma_lowered_steps_are_kept(
    steps: JsonView,
    label: Seq<char>,
    all: Seq<JsonView>,
    place: Seq<char>,
    k: nat,
)
    requires
        steps is Array,
        all.len() == steps->Array_0.len(),
        k <= all.len(),
        forall|i: int|
            0 <= i < all.len() ==> lowered(
                steps->Array_0[i],
                step_label(label, i),
                no_defaults(),
            ) == Ok::<JsonView, Seq<char>>(#[trigger] all[i]),
    ensures
        lowered_steps(JsonView::Array(all), place, k) == Ok::<Seq<JsonView>, Seq<char>>(
            all.take(k as int),
        ),
    decreases steps, k,
{
    if k == 0 {
        assert(all.take(0) =~= Seq::empty());
    } else {
        lemma_lowered_steps_are_kept(steps, label, all, place, (k - 1) as nat);
        json::lemma_element_smaller(steps, k - 1);
        lemma_lowering_is_a_fixed_point(
            steps->Array_0[k - 1],
            step_label(label, k - 1),
            no_defaults(),
            step_label(place, k - 1),
            no_defaults(),
        );
        assert(all.take(k - 1).push(all[k - 1]) =~= all.take(k as int));
    }
}

proof fn lemma_lowered_branches_are_kept(
    branches: JsonView,
    label: Seq<char>,
    fork: Seq<(Seq<char>, JsonView)>,
    all: Seq<(Seq<char>, JsonView)>,
    place: Seq<char>,
    again: Seq<(Seq<char>, JsonView)>,
    k: nat,
)
    requires
        branches is Object,
        all.len() == branches->Object_0.len(),
        k <= all.len(),
        ordered::lookup(again, "cwd"@) is None,
        ordered::lookup(again, "output"@) is None,
        forall|i: int|
            #![trigger all[i]]
            0 <= i < all.len() ==> lowered(
                branches->Object_0[i].1,
                branch_label(label, branches->Object_0[i].0),
                handed_down(fork, branches->Object_0[i].0),
            ) == Ok::<JsonView, Seq<char>>(all[i].1),
    ensures
        lowered_branches(JsonView::Object(all), place, again, k) == Ok::<
            Seq<(Seq<char>, JsonView)>,
            Seq<char>,
        >(all.take(k as int)),
    decreases branches, k,
{
    if k == 0 {
        assert(all.take(0) =~= Seq::empty());
    } else {
        lemma_lowered_branches_are_kept(
            branches,
            label,
            fork,
            all,
            place,
            again,
            (k - 1) as nat,
        );
        json::lemma_entry_smaller(branches, k - 1);
        let (key, node) = all[k - 1];
        lemma_lowering_is_a_fixed_point(
            branches->Object_0[k - 1].1,
            branch_label(label, branches->Object_0[k - 1].0),
            handed_down(fork, branches->Object_0[k - 1].0),
            branch_label(place, key),
            handed_down(again, key),
        );
        assert(all.take(k - 1).push(all[k - 1]) =~= all.take(k as int));
    }
}

} // verus!
