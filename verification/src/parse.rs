//! From an authored value to a checked flow, and what reading and writing flows
//! promise each other.

use vstd::prelude::*;
use vstd::string::*;
use crate::canonical;
use crate::codec;
use crate::flow::{FlowSpec, FlowView, JoinView, ReducerView};
use crate::json;
use crate::json::{Json, JsonView};
use crate::normalize;
use crate::normalize::{DefaultsView, SpawnDefaults};
use crate::ordered;
use crate::references;
use crate::text;

verus! {

broadcast use vstd::string::group_string_axioms;

/// The flow that an authored value denotes: lowered to canonical form, read,
/// and checked for its references.
pub open spec fn parsed(raw: JsonView) -> Result<FlowView, Seq<char>> {
    match normalize::lowered(raw, "flow"@, normalize::no_defaults()) {
        Err(message) => Err(message),
        Ok(node) => match codec::decoded(node, false) {
            Err(message) => Err("invalid flow spec: "@ + message),
            Ok(flow) => match references::checked(flow) {
                Err(message) => Err(message),
                Ok(_) => Ok(flow),
            },
        },
    }
}

/// Lower an authored value to canonical form, read it into a [`FlowSpec`], and
/// check the integrity of its references.
pub fn parse_flow(raw: &Json) -> (result: Result<FlowSpec, String>)
    ensures
        codec::flow_agrees(result, parsed(raw@)),
{
    let node = match normalize::normalize_value(raw, &SpawnDefaults::none()) {
        Ok(node) => node,
        Err(message) => return Err(message),
    };
    let flow = match FlowSpec::from_json(&node) {
        Ok(flow) => flow,
        Err(message) => return Err(text::join("invalid flow spec: ", message.as_str())),
    };
    match references::validate_references(&flow) {
        Ok(_) => Ok(flow),
        Err(message) => Err(message),
    }
}

// ---------------------------------------------------------------------------
// Reading gives back what was written
// ---------------------------------------------------------------------------

/// No loop of the flow has `null` as its continuation condition. Written out,
/// such a condition cannot be told from none.
pub open spec fn writable(f: FlowView) -> bool
    decreases f,
{
    match f {
        FlowView::Spawn(_) => true,
        FlowView::Join(_) => true,
        FlowView::Sequence(s) => forall|i: int|
            0 <= i < s.steps.len() ==> writable(#[trigger] s.steps[i]),
        FlowView::Fork(k) => forall|i: int|
            #![trigger k.branches[i]]
            0 <= i < k.branches.len() ==> {
                proof {
                    assert(decreases_to!(k.branches => k.branches[i]));
                    assert(decreases_to!(k.branches[i] => k.branches[i].1));
                }
                writable(k.branches[i].1)
            },
        FlowView::Loop(l) => l.continue_when != Some(JsonView::Null) && writable(*l.body),
    }
}

/// Reading gives back the flow that was written.
pub proof fn lemma_read_what_was_written(f: FlowView, nested: bool)
    requires
        writable(f),
    ensures
        codec::decoded(codec::encoded(f), nested) == Ok::<FlowView, Seq<char>>(f),
    decreases f, 0nat,
{
    canonical::lemma_marks();
    let node = codec::encoded(f);
    match f {
        FlowView::Spawn(s) => {
            canonical::lemma_spawn_shape(
                s.id,
                s.label,
                s.agent,
                s.task,
                s.cwd,
                codec::encoded_output(s.output),
            );
            codec::lemma_spawn_reads(node, s);
        },
        FlowView::Join(j) => {
            lemma_read_join(j);
        },
        FlowView::Sequence(s) => {
            canonical::lemma_sequence_shape(
                s.id,
                s.label,
                codec::encoded_steps(s.steps, s.steps.len()),
            );
            codec::lemma_encoded_steps(s.steps, s.steps.len());
            lemma_read_steps(s.steps, s.steps.len());
            assert(s.steps.take(s.steps.len() as int) =~= s.steps);
            codec::lemma_sequence_reads(node, s);
        },
        FlowView::Fork(k) => {
            canonical::lemma_fork_shape(
                k.id,
                k.label,
                match k.concurrency {
                    Some(n) => Some(codec::encoded_count(n)),
                    None => None,
                },
                codec::encoded_branches(k.branches, k.branches.len()),
            );
            codec::lemma_encoded_branches(k.branches, k.branches.len());
            lemma_read_branches(k.branches, k.branches.len());
            assert(k.branches.take(k.branches.len() as int) =~= k.branches);
            codec::lemma_fork_reads(node, k);
        },
        FlowView::Loop(l) => {
            canonical::lemma_loop_shape(
                l.id,
                l.label,
                codec::encoded(*l.body),
                Some(codec::encoded_count(l.max_iterations)),
                l.continue_when,
            );
            lemma_read_what_was_written(*l.body, true);
            codec::lemma_loop_reads(node, l);
        },
    }
}

proof fn lemma_read_reducer(r: ReducerView)
    ensures
        codec::decoded_reducer(codec::encoded_reducer(r)) == Ok::<ReducerView, Seq<char>>(r),
{
    broadcast use ordered::lemma_lookup_put;

    canonical::lemma_marks();
    match r {
        ReducerView::Agent(agent) => {
            codec::lemma_agent_reads(codec::encoded_reducer(r), agent);
        },
        ReducerView::Collect => {},
    }
}

proof fn lemma_read_join(j: JoinView)
    ensures
        codec::decoded(codec::encoded_join(j), true) == Ok::<FlowView, Seq<char>>(
            FlowView::Join(j),
        ),
        codec::decoded(codec::encoded_join(j), false) == Ok::<FlowView, Seq<char>>(
            FlowView::Join(j),
        ),
{
    canonical::lemma_marks();
    canonical::lemma_join_shape(
        j.id,
        j.label,
        Some(JsonView::Text(j.from)),
        Some(JsonView::Text(codec::mode_name(j.mode))),
        match j.quorum {
            Some(n) => Some(codec::encoded_count(n)),
            None => None,
        },
        match j.reducer {
            Some(reducer) => Some(codec::encoded_reducer(reducer)),
            None => None,
        },
        match j.on_failure {
            Some(policy) => Some(JsonView::Text(codec::failure_name(policy))),
            None => None,
        },
    );
    match j.reducer {
        Some(reducer) => {
            lemma_read_reducer(reducer);
        },
        None => {},
    }
    codec::lemma_join_reads(codec::encoded_join(j), j);
}

proof fn lemma_read_steps(steps: Seq<FlowView>, n: nat)
    requires
        n <= steps.len(),
        forall|i: int| 0 <= i < steps.len() ==> writable(#[trigger] steps[i]),
    ensures
        codec::decoded_steps(
            JsonView::Array(codec::encoded_steps(steps, steps.len())),
            n,
        ) == Ok::<Seq<FlowView>, Seq<char>>(steps.take(n as int)),
    decreases steps, n,
{
    if n == 0 {
        assert(steps.take(0) =~= Seq::empty());
    } else {
        lemma_read_steps(steps, (n - 1) as nat);
        codec::lemma_encoded_steps(steps, steps.len());
        lemma_read_what_was_written(steps[n - 1], true);
        assert(steps.take(n - 1).push(steps[n - 1]) =~= steps.take(n as int));
    }
}

proof fn lemma_read_branches(branches: Seq<(Seq<char>, FlowView)>, n: nat)
    requires
        n <= branches.len(),
        forall|i: int|
            #![trigger branches[i]]
            0 <= i < branches.len() ==> writable(branches[i].1),
    ensures
        codec::decoded_branches(
            JsonView::Object(codec::encoded_branches(branches, branches.len())),
            n,
        ) == Ok::<Seq<(Seq<char>, FlowView)>, Seq<char>>(branches.take(n as int)),
    decreases branches, n,
{
    if n == 0 {
        assert(branches.take(0) =~= Seq::empty());
    } else {
        lemma_read_branches(branches, (n - 1) as nat);
        codec::lemma_encoded_branches(branches, branches.len());
        assert(decreases_to!(branches => branches[n - 1]));
        assert(decreases_to!(branches[n - 1] => branches[n - 1].1));
        lemma_read_what_was_written(branches[n - 1].1, true);
        assert(branches.take(n - 1).push(branches[n - 1]) =~= branches.take(n as int));
    }
}

/// The value is the canonical form of some flow.
pub open spec fn canonical_form(node: JsonView) -> bool {
    exists|f: FlowView| writable(f) && node == #[trigger] codec::encoded(f)
}

/// A canonical value comes through reading and writing unchanged.
pub proof fn lemma_canonical_form_is_kept(node: JsonView)
    requires
        canonical_form(node),
    ensures
        codec::decoded(node, false) matches Ok(f) && codec::encoded(f) == node,
{
    let f = choose|f: FlowView| writable(f) && node == #[trigger] codec::encoded(f);
    lemma_read_what_was_written(f, false);
}

// ---------------------------------------------------------------------------
// Canonical form is a fixed point of lowering
// ---------------------------------------------------------------------------

/// What authoring asks of a flow: agents and tasks are more than white space,
/// and no fork is without branches.
pub open spec fn authored(f: FlowView) -> bool
    decreases f,
{
    match f {
        FlowView::Spawn(s) => !text::blank(s.agent) && !text::blank(s.task),
        FlowView::Join(_) => true,
        FlowView::Sequence(s) => forall|i: int|
            0 <= i < s.steps.len() ==> authored(#[trigger] s.steps[i]),
        FlowView::Fork(k) => {
            &&& k.branches.len() > 0
            &&& forall|i: int|
                #![trigger k.branches[i]]
                0 <= i < k.branches.len() ==> {
                    proof {
                        assert(decreases_to!(k.branches => k.branches[i]));
                        assert(decreases_to!(k.branches[i] => k.branches[i].1));
                    }
                    authored(k.branches[i].1)
                }
        },
        FlowView::Loop(l) => authored(*l.body),
    }
}

/// Lowering leaves the canonical form of an authored flow as it is.
pub proof fn lemma_lowering_keeps_canonical_form(
    f: FlowView,
    label: Seq<char>,
    defaults: DefaultsView,
)
    requires
        authored(f),
        defaults.cwd is None,
        defaults.output is None,
    ensures
        normalize::lowered(codec::encoded(f), label, defaults) == Ok::<JsonView, Seq<char>>(
            codec::encoded(f),
        ),
    decreases f, 0nat,
{
    canonical::lemma_marks();
    let node = codec::encoded(f);
    match f {
        FlowView::Spawn(s) => {
            canonical::lemma_spawn_shape(
                s.id,
                s.label,
                s.agent,
                s.task,
                s.cwd,
                codec::encoded_output(s.output),
            );
        },
        FlowView::Join(j) => {
            canonical::lemma_join_shape(
                j.id,
                j.label,
                Some(JsonView::Text(j.from)),
                Some(JsonView::Text(codec::mode_name(j.mode))),
                match j.quorum {
                    Some(n) => Some(codec::encoded_count(n)),
                    None => None,
                },
                match j.reducer {
                    Some(reducer) => Some(codec::encoded_reducer(reducer)),
                    None => None,
                },
                match j.on_failure {
                    Some(policy) => Some(JsonView::Text(codec::failure_name(policy))),
                    None => None,
                },
            );
        },
        FlowView::Sequence(s) => {
            let steps = codec::encoded_steps(s.steps, s.steps.len());
            canonical::lemma_sequence_shape(s.id, s.label, steps);
            codec::lemma_encoded_steps(s.steps, s.steps.len());
            lemma_lowering_keeps_steps(s.steps, label, s.steps.len());
            assert(steps.take(steps.len() as int) =~= steps);
        },
        FlowView::Fork(k) => {
            let branches = codec::encoded_branches(k.branches, k.branches.len());
            let concurrency = match k.concurrency {
                Some(n) => Some(codec::encoded_count(n)),
                None => None,
            };
            canonical::lemma_fork_shape(k.id, k.label, concurrency, branches);
            codec::lemma_encoded_branches(k.branches, k.branches.len());
            lemma_lowering_keeps_branches(
                k.branches,
                label,
                node->Object_0,
                k.branches.len(),
            );
            assert(branches.take(branches.len() as int) =~= branches);
        },
        FlowView::Loop(l) => {
            canonical::lemma_loop_shape(
                l.id,
                l.label,
                codec::encoded(*l.body),
                Some(codec::encoded_count(l.max_iterations)),
                l.continue_when,
            );
            lemma_lowering_keeps_canonical_form(
                *l.body,
                normalize::body_label(label),
                normalize::no_defaults(),
            );
        },
    }
}

proof fn lemma_lowering_keeps_steps(steps: Seq<FlowView>, label: Seq<char>, n: nat)
    requires
        n <= steps.len(),
        forall|i: int| 0 <= i < steps.len() ==> authored(#[trigger] steps[i]),
    ensures
        normalize::lowered_steps(
            JsonView::Array(codec::encoded_steps(steps, steps.len())),
            label,
            n,
        ) == Ok::<Seq<JsonView>, Seq<char>>(
            codec::encoded_steps(steps, steps.len()).take(n as int),
        ),
    decreases steps, n,
{
    let all = codec::encoded_steps(steps, steps.len());
    if n == 0 {
        assert(all.take(0) =~= Seq::empty());
    } else {
        lemma_lowering_keeps_steps(steps, label, (n - 1) as nat);
        codec::lemma_encoded_steps(steps, steps.len());
        lemma_lowering_keeps_canonical_form(
            steps[n - 1],
            normalize::step_label(label, n - 1),
            normalize::no_defaults(),
        );
        assert(all.take(n - 1).push(all[n - 1]) =~= all.take(n as int));
    }
}

proof fn lemma_lowering_keeps_branches(
    branches: Seq<(Seq<char>, FlowView)>,
    label: Seq<char>,
    fork: Seq<(Seq<char>, JsonView)>,
    n: nat,
)
    requires
        n <= branches.len(),
        ordered::lookup(fork, "cwd"@) is None,
        ordered::lookup(fork, "output"@) is None,
        forall|i: int|
            #![trigger branches[i]]
            0 <= i < branches.len() ==> authored(branches[i].1),
    ensures
        normalize::lowered_branches(
            JsonView::Object(codec::encoded_branches(branches, branches.len())),
            label,
            fork,
            n,
        ) == Ok::<Seq<(Seq<char>, JsonView)>, Seq<char>>(
            codec::encoded_branches(branches, branches.len()).take(n as int),
        ),
    decreases branches, n,
{
    let all = codec::encoded_branches(branches, branches.len());
    if n == 0 {
        assert(all.take(0) =~= Seq::empty());
    } else {
        lemma_lowering_keeps_branches(branches, label, fork, (n - 1) as nat);
        codec::lemma_encoded_branches(branches, branches.len());
        assert(decreases_to!(branches => branches[n - 1]));
        assert(decreases_to!(branches[n - 1] => branches[n - 1].1));
        lemma_lowering_keeps_canonical_form(
            branches[n - 1].1,
            normalize::branch_label(label, branches[n - 1].0),
            normalize::handed_down(fork, branches[n - 1].0),
        );
        assert(all.take(n - 1).push(all[n - 1]) =~= all.take(n as int));
    }
}

// ---------------------------------------------------------------------------
// What reading an authored value gives
// ---------------------------------------------------------------------------

/// A flow that was read can be written.
pub proof fn lemma_read_flows_are_writable(node: JsonView, nested: bool)
    ensures
        codec::decoded(node, nested) matches Ok(f) ==> writable(f),
    decreases node, 0nat,
{
    codec::lemma_decoded_parts(node, nested);
    match codec::decoded(node, nested) {
        Ok(FlowView::Sequence(s)) => {
            codec::lemma_part_smaller(node, 2, "steps"@);
            let steps = codec::part(node, 2, "steps"@)->0;
            lemma_read_steps_are_writable(steps, steps->Array_0.len());
        },
        Ok(FlowView::Fork(k)) => {
            codec::lemma_part_smaller(node, 2, "branches"@);
            let branches = codec::part(node, 2, "branches"@)->0;
            lemma_read_branches_are_writable(branches, branches->Object_0.len());
        },
        Ok(FlowView::Loop(l)) => {
            codec::lemma_part_smaller(node, 2, "body"@);
            lemma_read_flows_are_writable(codec::part(node, 2, "body"@)->0, true);
        },
        _ => {},
    }
}

proof fn lemma_read_steps_are_writable(steps: JsonView, n: nat)
    requires
        steps is Array,
        n <= steps->Array_0.len(),
    ensures
        codec::decoded_steps(steps, n) matches Ok(done) ==> forall|i: int|
            0 <= i < done.len() ==> writable(#[trigger] done[i]),
    decreases steps, n,
{
    if n > 0 {
        lemma_read_steps_are_writable(steps, (n - 1) as nat);
        json::lemma_element_smaller(steps, n - 1);
        lemma_read_flows_are_writable(steps->Array_0[n - 1], true);
    }
}

proof fn lemma_read_branches_are_writable(branches: JsonView, n: nat)
    requires
        branches is Object,
        n <= branches->Object_0.len(),
    ensures
        codec::decoded_branches(branches, n) matches Ok(done) ==> forall|i: int|
            #![trigger done[i]]
            0 <= i < done.len() ==> writable(done[i].1),
    decreases branches, n,
{
    if n > 0 {
        lemma_read_branches_are_writable(branches, (n - 1) as nat);
        json::lemma_entry_smaller(branches, n - 1);
        lemma_read_flows_are_writable(branches->Object_0[n - 1].1, true);
    }
}

/// A flow that was read from a lowered value is as authoring asks.
pub proof fn lemma_lowered_flows_are_authored(
    raw: JsonView,
    label: Seq<char>,
    defaults: DefaultsView,
    nested: bool,
)
    ensures
        normalize::lowered(raw, label, defaults) matches Ok(node) ==> (codec::decoded(
            node,
            nested,
        ) matches Ok(f) ==> authored(f)),
    decreases raw, 0nat,
{
    canonical::lemma_marks();
    match normalize::lowered(raw, label, defaults) {
        Err(_) => {},
        Ok(node) => {
            codec::lemma_decoded_parts(node, nested);
            let entries = match raw {
                JsonView::Text(agent) => seq![("agent"@, JsonView::Text(agent))],
                JsonView::Object(entries) => entries,
                _ => Seq::empty(),
            };
            let id = json::text_field(entries, "id"@);
            let title = json::text_field(entries, "label"@);
            let kind = match raw {
                JsonView::Object(_) => match json::text_field(entries, "kind"@) {
                    Some(kind) => kind,
                    None => "spawn"@,
                },
                _ => "spawn"@,
            };
            if kind == "spawn"@ {
                canonical::lemma_spawn_shape(
                    id,
                    title,
                    normalize::first_given(
                        json::text_field(entries, "agent"@),
                        defaults.agent,
                    )->0,
                    normalize::first_given(
                        json::text_field(entries, "task"@),
                        normalize::branch_task(defaults),
                    )->0,
                    normalize::first_given(json::text_field(entries, "cwd"@), defaults.cwd),
                    normalize::first_given(ordered::lookup(entries, "output"@), defaults.output),
                );
            } else if kind == "sequence"@ {
                json::lemma_member_smaller(raw, "steps"@);
                let steps = raw.member("steps"@)->0;
                let n = steps->Array_0.len();
                let done = normalize::lowered_steps(steps, label, n)->Ok_0;
                canonical::lemma_sequence_shape(id, title, done);
                normalize::lemma_steps_one_by_one(steps, label, n);
                lemma_lowered_steps_are_authored(steps, label, done, n);
            } else if kind == "fork"@ {
                json::lemma_member_smaller(raw, "branches"@);
                let branches = raw.member("branches"@)->0;
                let n = branches->Object_0.len();
                let done = normalize::lowered_branches(branches, label, entries, n)->Ok_0;
                canonical::lemma_fork_shape(
                    match id {
                        Some(id) => id,
                        None => "fork"@,
                    },
                    title,
                    normalize::given_count(entries, "concurrency"@),
                    done,
                );
                normalize::lemma_branches_one_by_one(branches, label, entries, n);
                codec::lemma_branches_keys(JsonView::Object(done), n);
                lemma_lowered_branches_are_authored(branches, label, entries, done, n);
            } else if kind == "join"@ {
                canonical::lemma_join_shape(
                    id,
                    title,
                    ordered::lookup(entries, "from"@),
                    ordered::lookup(entries, "mode"@),
                    ordered::lookup(entries, "quorum"@),
                    ordered::lookup(entries, "reducer"@),
                    ordered::lookup(entries, "onFailure"@),
                );
            } else {
                json::lemma_member_smaller(raw, "body"@);
                let body = raw.member("body"@)->0;
                let at = normalize::body_label(label);
                canonical::lemma_loop_shape(
                    match id {
                        Some(id) => id,
                        None => "loop"@,
                    },
                    title,
                    normalize::lowered(body, at, normalize::no_defaults())->Ok_0,
                    ordered::lookup(entries, "maxIterations"@),
                    ordered::lookup(entries, "continueWhen"@),
                );
                lemma_lowered_flows_are_authored(body, at, normalize::no_defaults(), true);
            }
        },
    }
}

proof fn lemma_lowered_steps_are_authored(
    steps: JsonView,
    label: Seq<char>,
    all: Seq<JsonView>,
    k: nat,
)
    requires
        steps is Array,
        all.len() == steps->Array_0.len(),
        k <= all.len(),
        forall|i: int|
            0 <= i < all.len() ==> normalize::lowered(
                steps->Array_0[i],
                normalize::step_label(label, i),
                normalize::no_defaults(),
            ) == Ok::<JsonView, Seq<char>>(#[trigger] all[i]),
    ensures
        codec::decoded_steps(JsonView::Array(all), k) matches Ok(done) ==> forall|i: int|
            0 <= i < done.len() ==> authored(#[trigger] done[i]),
    decreases steps, k,
{
    if k > 0 {
        lemma_lowered_steps_are_authored(steps, label, all, (k - 1) as nat);
        json::lemma_element_smaller(steps, k - 1);
        lemma_lowered_flows_are_authored(
            steps->Array_0[k - 1],
            normalize::step_label(label, k - 1),
            normalize::no_defaults(),
            true,
        );
        assert(all[k - 1] == all[k - 1]);
    }
}

proof fn lemma_lowered_branches_are_authored(
    branches: JsonView,
    label: Seq<char>,
    fork: Seq<(Seq<char>, JsonView)>,
    all: Seq<(Seq<char>, JsonView)>,
    k: nat,
)
    requires
        branches is Object,
        all.len() == branches->Object_0.len(),
        k <= all.len(),
        forall|i: int|
            #![trigger all[i]]
            0 <= i < all.len() ==> normalize::lowered(
                branches->Object_0[i].1,
                normalize::branch_label(label, branches->Object_0[i].0),
                normalize::handed_down(fork, branches->Object_0[i].0),
            ) == Ok::<JsonView, Seq<char>>(all[i].1),
    ensures
        codec::decoded_branches(JsonView::Object(all), k) matches Ok(done) ==> forall|i: int|
            #![trigger done[i]]
            0 <= i < done.len() ==> authored(done[i].1),
    decreases branches, k,
{
    if k > 0 {
        lemma_lowered_branches_are_authored(branches, label, fork, all, (k - 1) as nat);
        json::lemma_entry_smaller(branches, k - 1);
        lemma_lowered_flows_are_authored(
            branches->Object_0[k - 1].1,
            normalize::branch_label(label, branches->Object_0[k - 1].0),
            normalize::handed_down(fork, branches->Object_0[k - 1].0),
            true,
        );
        assert(all[k - 1] == all[k - 1]);
    }
}

/// A parsed flow, written out in canonical form and parsed again, is the same
/// flow.
pub proof fn lemma_parsing_is_stable(raw: JsonView)
    ensures
        parsed(raw) matches Ok(f) ==> parsed(codec::encoded(f)) == Ok::<FlowView, Seq<char>>(f),
{
    match parsed(raw) {
        Ok(f) => {
            let node = normalize::lowered(raw, "flow"@, normalize::no_defaults())->Ok_0;
            lemma_lowered_flows_are_authored(raw, "flow"@, normalize::no_defaults(), false);
            lemma_read_flows_are_writable(node, false);
            lemma_lowering_keeps_canonical_form(f, "flow"@, normalize::no_defaults());
            lemma_read_what_was_written(f, false);
        },
        Err(_) => {},
    }
}

} // verus!
