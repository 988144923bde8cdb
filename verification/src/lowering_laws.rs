//! What lowering makes of an authored node, said of what the author wrote and of what
//! comes out.

use vstd::prelude::*;
use vstd::string::*;
use crate::canonical;
use crate::json::{JsonView, NumberView};
use crate::normalize;
use crate::normalize::DefaultsView;
use crate::ordered;
use crate::text;

verus! {

broadcast use vstd::string::group_string_axioms;

/// The text that an object holds under a key, where it holds one.
pub open spec fn written(entries: Seq<(Seq<char>, JsonView)>, key: Seq<char>) -> Option<Seq<char>> {
    match ordered::lookup(entries, key) {
        Some(JsonView::Text(text)) => Some(text),
        _ => None,
    }
}

/// An object holds a text under a key, or nothing there where there is no text.
pub open spec fn holds_text(
    entries: Seq<(Seq<char>, JsonView)>,
    key: Seq<char>,
    text: Option<Seq<char>>,
) -> bool {
    match text {
        Some(text) => ordered::lookup(entries, key) == Some(JsonView::Text(text)),
        None => ordered::lookup(entries, key) is None,
    }
}

/// There is a text, and it is more than white space.
pub open spec fn says_something(text: Option<Seq<char>>) -> bool {
    text matches Some(text) && exists|i: int|
        0 <= i < text.len() && !text::white_space(#[trigger] text[i])
}

/// Nothing is handed down.
pub open spec fn nothing() -> DefaultsView {
    DefaultsView { agent: None, task_template: None, cwd: None, output: None, branch_key: None }
}

/// What comes out of a spawn: its agent is its own, or else the one handed down; its task
/// its own, or else the template handed down with `{branch}` replaced by the branch key,
/// or else that key; its `cwd` and its `output` are its own, whatever is handed down, and
/// those handed down only where it gives none. An agent or a task of nothing but white
/// space is an error, and so is none at all.
pub proof fn lemma_spawns_are_lowered(
    entries: Seq<(Seq<char>, JsonView)>,
    label: Seq<char>,
    d: DefaultsView,
)
    requires
        written(entries, "kind"@) is None || written(entries, "kind"@) == Some("spawn"@),
    ensures
        ({
            let result = normalize::lowered(JsonView::Object(entries), label, d);
            let agent = if written(entries, "agent"@) is Some {
                written(entries, "agent"@)
            } else {
                d.agent
            };
            let task = if written(entries, "task"@) is Some {
                written(entries, "task"@)
            } else if d.task_template is Some && d.branch_key is Some {
                Some(text::replaced(d.task_template->0, "{branch}"@, d.branch_key->0))
            } else if d.task_template is Some {
                Some(text::replaced(d.task_template->0, "{branch}"@, Seq::empty()))
            } else {
                d.branch_key
            };
            &&& !says_something(agent) ==> result == Err::<JsonView, Seq<char>>(
                label + ".agent must be a non-empty string or inherit one from the parent fork."@,
            )
            &&& says_something(agent) && !says_something(task) ==> result == Err::<
                JsonView,
                Seq<char>,
            >(label + ".task must be a non-empty string or inherit one from fork.taskTemplate."@)
            &&& says_something(agent) && says_something(task) ==> {
                &&& result matches Ok(JsonView::Object(out))
                &&& ordered::lookup(out, "kind"@) == Some(JsonView::Text("spawn"@))
                &&& holds_text(out, "id"@, written(entries, "id"@))
                &&& holds_text(out, "label"@, written(entries, "label"@))
                &&& holds_text(out, "agent"@, agent)
                &&& holds_text(out, "task"@, task)
                &&& written(entries, "cwd"@) is Some ==> holds_text(
                    out,
                    "cwd"@,
                    written(entries, "cwd"@),
                )
                &&& written(entries, "cwd"@) is None ==> holds_text(out, "cwd"@, d.cwd)
                &&& ordered::lookup(entries, "output"@) is Some ==> ordered::lookup(
                    out,
                    "output"@,
                ) == ordered::lookup(entries, "output"@)
                &&& ordered::lookup(entries, "output"@) is None ==> ordered::lookup(
                    out,
                    "output"@,
                ) == d.output
                &&& forall|key: Seq<char>|
                    key != "kind"@ && key != "id"@ && key != "label"@ && key != "agent"@ && key
                        != "task"@ && key != "cwd"@ && key != "output"@ ==> (
                    #[trigger] ordered::lookup(out, key)) is None
            }
        }),
{
    broadcast use ordered::lemma_lookup_put;

    canonical::lemma_marks();
    assert(ordered::lookup(Seq::<(Seq<char>, JsonView)>::empty(), "kind"@) is None);
    assert(forall|key: Seq<char>|
        ordered::lookup(Seq::<(Seq<char>, JsonView)>::empty(), key) is None);
}

/// A bare text is a spawn on that agent.
pub proof fn lemma_bare_texts_are_spawns(agent: Seq<char>, label: Seq<char>, d: DefaultsView)
    ensures
        normalize::lowered(JsonView::Text(agent), label, d) == normalize::lowered(
            JsonView::Object(seq![("agent"@, JsonView::Text(agent))]),
            label,
            d,
        ),
{
    canonical::lemma_marks();
    reveal_with_fuel(ordered::lookup, 3);
    let entries = seq![("agent"@, JsonView::Text(agent))];
    assert(entries.drop_first() =~= Seq::empty());
    assert(ordered::lookup(entries, "kind"@) is None);
}

/// Nothing but a text or an object is a node, and an object of no known kind is none.
pub proof fn lemma_other_values_are_no_nodes(raw: JsonView, label: Seq<char>, d: DefaultsView)
    ensures
        !(raw is Text) && !(raw is Object) ==> normalize::lowered(raw, label, d) == Err::<
            JsonView,
            Seq<char>,
        >(label + " must be an object or agent-name string."@),
        raw is Object ==> (written(raw->Object_0, "kind"@) matches Some(kind) ==> (kind != "spawn"@
            && kind != "sequence"@ && kind != "fork"@ && kind != "join"@ && kind != "loop"@
            ==> normalize::lowered(raw, label, d) == Err::<JsonView, Seq<char>>(
            label + ".kind must be one of spawn, sequence, fork, join, loop (got "@
                + text::debug_text(kind) + ")."@,
        ))),
{
}

/// A sequence keeps its id and its label, and each of its steps is lowered by itself:
/// nothing is handed down to it. The first step that cannot be lowered says why.
pub proof fn lemma_sequences_are_lowered(
    entries: Seq<(Seq<char>, JsonView)>,
    label: Seq<char>,
    d: DefaultsView,
)
    requires
        written(entries, "kind"@) == Some("sequence"@),
    ensures
        ({
            let result = normalize::lowered(JsonView::Object(entries), label, d);
            let at = |i: int| label + ".steps["@ + text::decimal_text(i as nat) + "]"@;
            match ordered::lookup(entries, "steps"@) {
                Some(JsonView::Array(steps)) => match result {
                    Ok(node) => {
                        &&& node matches JsonView::Object(out)
                        &&& ordered::lookup(out, "kind"@) == Some(JsonView::Text("sequence"@))
                        &&& holds_text(out, "id"@, written(entries, "id"@))
                        &&& holds_text(out, "label"@, written(entries, "label"@))
                        &&& ordered::lookup(out, "steps"@) matches Some(JsonView::Array(done))
                        &&& done.len() == steps.len()
                        &&& forall|i: int|
                            0 <= i < steps.len() ==> normalize::lowered(
                                #[trigger] steps[i],
                                at(i),
                                nothing(),
                            ) == Ok::<JsonView, Seq<char>>(done[i])
                        &&& forall|key: Seq<char>|
                            key != "kind"@ && key != "id"@ && key != "label"@ && key != "steps"@
                                ==> (#[trigger] ordered::lookup(out, key)) is None
                    },
                    Err(message) => exists|i: int|
                        {
                            &&& 0 <= i < steps.len()
                            &&& normalize::lowered(#[trigger] steps[i], at(i), nothing()) == Err::<
                                JsonView,
                                Seq<char>,
                            >(message)
                            &&& forall|j: int|
                                0 <= j < i ==> normalize::lowered(
                                    #[trigger] steps[j],
                                    at(j),
                                    nothing(),
                                ) is Ok
                        },
                },
                _ => result == Err::<JsonView, Seq<char>>(label + ".steps must be an array."@),
            }
        }),
{
    broadcast use ordered::lemma_lookup_put;

    canonical::lemma_marks();
    assert(forall|key: Seq<char>|
        ordered::lookup(Seq::<(Seq<char>, JsonView)>::empty(), key) is None);
    match ordered::lookup(entries, "steps"@) {
        Some(JsonView::Array(steps)) => {
            lemma_steps_in_turn(steps, label, steps.len());
        },
        _ => {},
    }
}

proof fn lemma_steps_in_turn(steps: Seq<JsonView>, label: Seq<char>, n: nat)
    requires
        n <= steps.len(),
    ensures
        match normalize::lowered_steps(JsonView::Array(steps), label, n) {
            Ok(done) => {
                &&& done.len() == n
                &&& forall|i: int|
                    0 <= i < n ==> normalize::lowered(
                        #[trigger] steps[i],
                        normalize::step_label(label, i),
                        normalize::no_defaults(),
                    ) == Ok::<JsonView, Seq<char>>(done[i])
            },
            Err(message) => exists|i: int|
                {
                    &&& 0 <= i < n
                    &&& normalize::lowered(
                        #[trigger] steps[i],
                        normalize::step_label(label, i),
                        normalize::no_defaults(),
                    ) == Err::<JsonView, Seq<char>>(message)
                    &&& forall|j: int|
                        0 <= j < i ==> normalize::lowered(
                            #[trigger] steps[j],
                            normalize::step_label(label, j),
                            normalize::no_defaults(),
                        ) is Ok
                },
        },
    decreases n,
{
    if n > 0 {
        lemma_steps_in_turn(steps, label, (n - 1) as nat);
        let step = normalize::lowered(
            steps[n - 1],
            normalize::step_label(label, n - 1),
            normalize::no_defaults(),
        );
        match normalize::lowered_steps(JsonView::Array(steps), label, (n - 1) as nat) {
            Ok(done) => {
                match step {
                    Ok(node) => {
                        assert(normalize::lowered_steps(JsonView::Array(steps), label, n) == Ok::<
                            Seq<JsonView>,
                            Seq<char>,
                        >(done.push(node)));
                    },
                    Err(message) => {
                        assert(normalize::lowered_steps(JsonView::Array(steps), label, n) == Err::<
                            Seq<JsonView>,
                            Seq<char>,
                        >(message));
                        let last = n - 1;
                        assert(0 <= last < n && steps[last] == steps[n - 1]);
                    },
                }
            },
            Err(_) => {},
        }
    }
}

/// What a fork object hands down to its branch `key`.
pub open spec fn passed_on(entries: Seq<(Seq<char>, JsonView)>, key: Seq<char>) -> DefaultsView {
    DefaultsView {
        agent: written(entries, "agent"@),
        task_template: written(entries, "taskTemplate"@),
        cwd: written(entries, "cwd"@),
        output: ordered::lookup(entries, "output"@),
        branch_key: Some(key),
    }
}

/// A fork keeps its label, its id, which is `fork` where it gives none, and its cap where
/// that is an integer in the range of `u64`. Each of its branches is lowered under its own
/// key, with the fork's agent, task template, `cwd` and `output` handed down; the fork
/// itself keeps none of these. The first branch that cannot be lowered says why.
pub proof fn lemma_forks_are_lowered(
    entries: Seq<(Seq<char>, JsonView)>,
    label: Seq<char>,
    d: DefaultsView,
)
    requires
        written(entries, "kind"@) == Some("fork"@),
    ensures
        ({
            let result = normalize::lowered(JsonView::Object(entries), label, d);
            let at = |key: Seq<char>| label + ".branches."@ + key;
            match ordered::lookup(entries, "branches"@) {
                Some(JsonView::Object(branches)) if branches.len() > 0 => match result {
                    Ok(node) => {
                        &&& node matches JsonView::Object(out)
                        &&& ordered::lookup(out, "kind"@) == Some(JsonView::Text("fork"@))
                        &&& holds_text(
                            out,
                            "id"@,
                            if written(entries, "id"@) is Some {
                                written(entries, "id"@)
                            } else {
                                Some("fork"@)
                            },
                        )
                        &&& holds_text(out, "label"@, written(entries, "label"@))
                        &&& match ordered::lookup(entries, "concurrency"@) {
                            Some(JsonView::Number(NumberView::Integer(n))) => if 0 <= n
                                <= u64::MAX {
                                ordered::lookup(out, "concurrency"@) == Some(
                                    JsonView::Number(NumberView::Integer(n)),
                                )
                            } else {
                                ordered::lookup(out, "concurrency"@) is None
                            },
                            _ => ordered::lookup(out, "concurrency"@) is None,
                        }
                        &&& ordered::lookup(out, "branches"@) matches Some(JsonView::Object(done))
                        &&& done.len() == branches.len()
                        &&& forall|i: int|
                            0 <= i < branches.len() ==> done[i].0 == (
                            #[trigger] branches[i]).0 && normalize::lowered(
                                branches[i].1,
                                at(branches[i].0),
                                passed_on(entries, branches[i].0),
                            ) == Ok::<JsonView, Seq<char>>(done[i].1)
                        &&& forall|key: Seq<char>|
                            key != "kind"@ && key != "id"@ && key != "label"@ && key
                                != "concurrency"@ && key != "branches"@ ==> (
                            #[trigger] ordered::lookup(out, key)) is None
                    },
                    Err(message) => exists|i: int|
                        {
                            &&& 0 <= i < branches.len()
                            &&& normalize::lowered(
                                (#[trigger] branches[i]).1,
                                at(branches[i].0),
                                passed_on(entries, branches[i].0),
                            ) == Err::<JsonView, Seq<char>>(message)
                            &&& forall|j: int|
                                0 <= j < i ==> normalize::lowered(
                                    (#[trigger] branches[j]).1,
                                    at(branches[j].0),
                                    passed_on(entries, branches[j].0),
                                ) is Ok
                        },
                },
                _ => result == Err::<JsonView, Seq<char>>(
                    label + ".branches must be a non-empty object."@,
                ),
            }
        }),
{
    broadcast use ordered::lemma_lookup_put;

    canonical::lemma_marks();
    assert(forall|key: Seq<char>|
        ordered::lookup(Seq::<(Seq<char>, JsonView)>::empty(), key) is None);
    assert(forall|key: Seq<char>| passed_on(entries, key) == normalize::handed_down(entries, key));
    match ordered::lookup(entries, "branches"@) {
        Some(JsonView::Object(branches)) if branches.len() > 0 => {
            lemma_branches_in_turn(branches, label, entries, branches.len());
        },
        _ => {},
    }
}

proof fn lemma_branches_in_turn(
    branches: Seq<(Seq<char>, JsonView)>,
    label: Seq<char>,
    fork: Seq<(Seq<char>, JsonView)>,
    n: nat,
)
    requires
        n <= branches.len(),
    ensures
        match normalize::lowered_branches(JsonView::Object(branches), label, fork, n) {
            Ok(done) => {
                &&& done.len() == n
                &&& forall|i: int|
                    0 <= i < n ==> done[i].0 == (#[trigger] branches[i]).0 && normalize::lowered(
                        branches[i].1,
                        normalize::branch_label(label, branches[i].0),
                        normalize::handed_down(fork, branches[i].0),
                    ) == Ok::<JsonView, Seq<char>>(done[i].1)
            },
            Err(message) => exists|i: int|
                {
                    &&& 0 <= i < n
                    &&& normalize::lowered(
                        (#[trigger] branches[i]).1,
                        normalize::branch_label(label, branches[i].0),
                        normalize::handed_down(fork, branches[i].0),
                    ) == Err::<JsonView, Seq<char>>(message)
                    &&& forall|j: int|
                        0 <= j < i ==> normalize::lowered(
                            (#[trigger] branches[j]).1,
                            normalize::branch_label(label, branches[j].0),
                            normalize::handed_down(fork, branches[j].0),
                        ) is Ok
                },
        },
    decreases n,
{
    if n > 0 {
        lemma_branches_in_turn(branches, label, fork, (n - 1) as nat);
        let (key, value) = branches[n - 1];
        let branch = normalize::lowered(
            value,
            normalize::branch_label(label, key),
            normalize::handed_down(fork, key),
        );
        let all = JsonView::Object(branches);
        match normalize::lowered_branches(all, label, fork, (n - 1) as nat) {
            Ok(done) => {
                match branch {
                    Ok(node) => {
                        assert(normalize::lowered_branches(all, label, fork, n) == Ok::<
                            Seq<(Seq<char>, JsonView)>,
                            Seq<char>,
                        >(done.push((key, node))));
                    },
                    Err(message) => {
                        assert(normalize::lowered_branches(all, label, fork, n) == Err::<
                            Seq<(Seq<char>, JsonView)>,
                            Seq<char>,
                        >(message));
                        let last = n - 1;
                        assert(0 <= last < n && branches[last] == branches[n - 1]);
                    },
                }
            },
            Err(_) => {},
        }
    }
}

/// A join is always lowered: it keeps its id, its label, and as they are the five fields
/// that a join has.
pub proof fn lemma_joins_are_lowered(
    entries: Seq<(Seq<char>, JsonView)>,
    label: Seq<char>,
    d: DefaultsView,
)
    requires
        written(entries, "kind"@) == Some("join"@),
    ensures
        ({
            &&& normalize::lowered(JsonView::Object(entries), label, d) matches Ok(
                JsonView::Object(out),
            )
            &&& ordered::lookup(out, "kind"@) == Some(JsonView::Text("join"@))
            &&& holds_text(out, "id"@, written(entries, "id"@))
            &&& holds_text(out, "label"@, written(entries, "label"@))
            &&& ordered::lookup(out, "from"@) == ordered::lookup(entries, "from"@)
            &&& ordered::lookup(out, "mode"@) == ordered::lookup(entries, "mode"@)
            &&& ordered::lookup(out, "quorum"@) == ordered::lookup(entries, "quorum"@)
            &&& ordered::lookup(out, "reducer"@) == ordered::lookup(entries, "reducer"@)
            &&& ordered::lookup(out, "onFailure"@) == ordered::lookup(entries, "onFailure"@)
            &&& forall|key: Seq<char>|
                key != "kind"@ && key != "id"@ && key != "label"@ && key != "from"@ && key
                    != "mode"@ && key != "quorum"@ && key != "reducer"@ && key != "onFailure"@
                    ==> (#[trigger] ordered::lookup(out, key)) is None
        }),
{
    broadcast use ordered::lemma_lookup_put;

    canonical::lemma_marks();
    assert(forall|key: Seq<char>|
        ordered::lookup(Seq::<(Seq<char>, JsonView)>::empty(), key) is None);
}

/// A loop keeps its label, its id, which is `loop` where it gives none, and as they are
/// its bound and its condition; its body is lowered by itself.
pub proof fn lemma_loops_are_lowered(
    entries: Seq<(Seq<char>, JsonView)>,
    label: Seq<char>,
    d: DefaultsView,
)
    requires
        written(entries, "kind"@) == Some("loop"@),
    ensures
        ({
            let result = normalize::lowered(JsonView::Object(entries), label, d);
            match ordered::lookup(entries, "body"@) {
                None => result == Err::<JsonView, Seq<char>>(
                    label + ".body is required for a loop."@,
                ),
                Some(body) => match normalize::lowered(body, label + ".body"@, nothing()) {
                    Err(message) => result == Err::<JsonView, Seq<char>>(message),
                    Ok(done) => {
                        &&& result matches Ok(JsonView::Object(out))
                        &&& ordered::lookup(out, "kind"@) == Some(JsonView::Text("loop"@))
                        &&& holds_text(
                            out,
                            "id"@,
                            if written(entries, "id"@) is Some {
                                written(entries, "id"@)
                            } else {
                                Some("loop"@)
                            },
                        )
                        &&& holds_text(out, "label"@, written(entries, "label"@))
                        &&& ordered::lookup(out, "body"@) == Some(done)
                        &&& ordered::lookup(out, "maxIterations"@) == ordered::lookup(
                            entries,
                            "maxIterations"@,
                        )
                        &&& ordered::lookup(out, "continueWhen"@) == ordered::lookup(
                            entries,
                            "continueWhen"@,
                        )
                        &&& forall|key: Seq<char>|
                            key != "kind"@ && key != "id"@ && key != "label"@ && key != "body"@
                                && key != "maxIterations"@ && key != "continueWhen"@ ==> (
                            #[trigger] ordered::lookup(out, key)) is None
                    },
                },
            }
        }),
{
    broadcast use ordered::lemma_lookup_put;

    canonical::lemma_marks();
    assert(forall|key: Seq<char>|
        ordered::lookup(Seq::<(Seq<char>, JsonView)>::empty(), key) is None);
    match ordered::lookup(entries, "body"@) {
        Some(body) => {
            let inner = normalize::lowered(
                body,
                normalize::body_label(label),
                normalize::no_defaults(),
            );
            assert(inner == normalize::lowered(body, label + ".body"@, nothing()));
        },
        None => {},
    }
}

} // verus!
