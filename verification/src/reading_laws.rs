//! Which flow a canonical node denotes, and how a flow is written, field by field.

use vstd::prelude::*;
use vstd::string::*;
use crate::canonical;
use crate::codec;
use crate::flow::{
    AgentReducerView, FlowView, ForkView, JoinMode, JoinView, LoopView, NodeKind, OnFailure,
    OutputMode, ReducerView, SequenceView, SpawnView,
};
use crate::json::{JsonView, NumberView};
use crate::ordered;

verus! {

broadcast use vstd::string::group_string_axioms;

// ---------------------------------------------------------------------------
// What fields denote
// ---------------------------------------------------------------------------

/// The field of a node: by its name in an object, by its position behind the tag in an
/// array.
pub open spec fn field(node: JsonView, i: int, name: Seq<char>) -> Option<JsonView> {
    match node {
        JsonView::Object(entries) => ordered::lookup(entries, name),
        JsonView::Array(items) => if 0 <= i && i + 1 < items.len() {
            Some(items[i + 1])
        } else {
            None
        },
        _ => None,
    }
}

/// A node of a kind: an object or an array with this tag, which inside another node may
/// also be the number of the kind; an array has its tag and all its fields, and no more.
pub open spec fn is_node(
    node: JsonView,
    nested: bool,
    kind: Seq<char>,
    number: int,
    fields: int,
) -> bool {
    let tag = match node {
        JsonView::Object(entries) => ordered::lookup(entries, "kind"@),
        JsonView::Array(items) => if items.len() > 0 {
            Some(items[0])
        } else {
            None
        },
        _ => None,
    };
    &&& tag == Some(JsonView::Text(kind)) || (nested && tag == Some(
        JsonView::Number(NumberView::Integer(number)),
    ))
    &&& node is Array ==> node->Array_0.len() == fields + 1
}

/// A text that must be there.
pub open spec fn is_text(value: Option<JsonView>, text: Seq<char>) -> bool {
    value == Some(JsonView::Text(text))
}

/// A text that may be absent or `null`.
pub open spec fn may_be_text(value: Option<JsonView>, text: Option<Seq<char>>) -> bool {
    match text {
        Some(text) => value == Some(JsonView::Text(text)),
        None => value is None || value == Some(JsonView::Null),
    }
}

/// A count that must be there.
pub open spec fn is_count(value: Option<JsonView>, n: usize) -> bool {
    value == Some(JsonView::Number(NumberView::Integer(n as int)))
}

/// A count that may be absent or `null`.
pub open spec fn may_be_count(value: Option<JsonView>, n: Option<usize>) -> bool {
    match n {
        Some(n) => is_count(value, n),
        None => value is None || value == Some(JsonView::Null),
    }
}

/// A choice: its name, or an object with the name as its only key over `null` or an empty
/// object.
pub open spec fn is_choice(value: Option<JsonView>, name: Seq<char>) -> bool {
    ||| value == Some(JsonView::Text(name))
    ||| {
        &&& value matches Some(JsonView::Object(entries))
        &&& entries.len() == 1
        &&& entries[0].0 == name
        &&& entries[0].1 is Null || (entries[0].1 matches JsonView::Object(inner) && inner.len()
            == 0)
    }
}

/// An output mode that may be absent or `null`.
pub open spec fn may_be_output(value: Option<JsonView>, output: Option<OutputMode>) -> bool {
    match output {
        Some(OutputMode::Text) => is_choice(value, "text"@),
        Some(OutputMode::Json) => is_choice(value, "json"@),
        None => value is None || value == Some(JsonView::Null),
    }
}

/// A join mode.
pub open spec fn is_mode(value: Option<JsonView>, mode: JoinMode) -> bool {
    match mode {
        JoinMode::All => is_choice(value, "all"@),
        JoinMode::Any => is_choice(value, "any"@),
        JoinMode::Quorum => is_choice(value, "quorum"@),
    }
}

/// A failure policy that may be absent or `null`.
pub open spec fn may_be_policy(value: Option<JsonView>, policy: Option<OnFailure>) -> bool {
    match policy {
        Some(OnFailure::FailFast) => is_choice(value, "failFast"@),
        Some(OnFailure::CollectErrors) => is_choice(value, "collectErrors"@),
        None => value is None || value == Some(JsonView::Null),
    }
}

/// A reducer that may be absent or `null`.
pub open spec fn may_be_reducer(value: Option<JsonView>, reducer: Option<ReducerView>) -> bool {
    match reducer {
        None => value is None || value == Some(JsonView::Null),
        Some(ReducerView::Collect) => value matches Some(node) && is_node(
            node,
            true,
            "collect"@,
            0,
            0,
        ),
        Some(ReducerView::Agent(r)) => {
            &&& value matches Some(node)
            &&& is_node(node, true, "agent"@, 1, 3)
            &&& is_text(field(node, 0, "agent"@), r.agent)
            &&& is_text(field(node, 1, "task"@), r.task)
            &&& may_be_output(field(node, 2, "output"@), r.output)
        },
    }
}

// ---------------------------------------------------------------------------
// Reading
// ---------------------------------------------------------------------------

proof fn lemma_output(value: Option<JsonView>, output: Option<OutputMode>)
    ensures
        codec::decoded_output(codec::given(value)) == Ok::<Option<OutputMode>, Seq<char>>(output)
            <==> may_be_output(value, output),
{
    canonical::lemma_marks();
}

proof fn lemma_mode(value: Option<JsonView>, mode: JoinMode)
    ensures
        codec::decoded_mode(value) == Ok::<Option<JoinMode>, Seq<char>>(Some(mode)) <==> is_mode(
            value,
            mode,
        ),
{
    canonical::lemma_marks();
}

proof fn lemma_policy(value: Option<JsonView>, policy: Option<OnFailure>)
    ensures
        codec::decoded_failure(codec::given(value)) == Ok::<Option<OnFailure>, Seq<char>>(policy)
            <==> may_be_policy(value, policy),
{
    canonical::lemma_marks();
}

proof fn lemma_reducer(value: Option<JsonView>, reducer: Option<ReducerView>)
    ensures
        codec::decoded_reducer_option(codec::given(value)) == Ok::<Option<ReducerView>, Seq<char>>(
            reducer,
        ) <==> may_be_reducer(value, reducer),
{
    canonical::lemma_marks();
    match value {
        Some(node) => {
            let faults = codec::agent_faults(node);
            codec::lemma_first(faults);
            let output = field(node, 2, "output"@);
            lemma_output(output, Some(OutputMode::Text));
            lemma_output(output, Some(OutputMode::Json));
            lemma_output(output, None);
            match reducer {
                Some(ReducerView::Agent(r)) => {
                    lemma_output(output, r.output);
                    if codec::first(faults) is None {
                        assert(faults[0] is None && faults[1] is None && faults[2] is None
                            && faults[3] is None);
                        if !(node is Array) {
                            assert(faults[4] is None);
                        }
                    }
                },
                _ => {},
            }
        },
        None => {},
    }
}

/// A node is read as a spawn exactly where its fields denote that spawn.
pub proof fn lemma_spawns_are_read(node: JsonView, nested: bool, s: SpawnView)
    ensures
        codec::decoded(node, nested) == Ok::<FlowView, Seq<char>>(FlowView::Spawn(s)) <==> {
            &&& is_node(node, nested, "spawn"@, 0, 6)
            &&& may_be_text(field(node, 0, "id"@), s.id)
            &&& may_be_text(field(node, 1, "label"@), s.label)
            &&& is_text(field(node, 2, "agent"@), s.agent)
            &&& is_text(field(node, 3, "task"@), s.task)
            &&& may_be_text(field(node, 4, "cwd"@), s.cwd)
            &&& may_be_output(field(node, 5, "output"@), s.output)
        },
{
    canonical::lemma_marks();
    lemma_output(field(node, 5, "output"@), s.output);
    let faults = codec::spawn_faults(node);
    codec::lemma_first(faults);
    codec::lemma_decoded_parts(node, nested);
    if codec::first(faults) is None {
        codec::lemma_spawn_is_complete(node);
        if node is Array {
            assert(faults[6] is None);
            assert(faults[5] is None);
        }
    }
}

/// A node is read as a join exactly where its fields denote that join.
#[verifier::rlimit(40)]
pub proof fn lemma_joins_are_read(node: JsonView, nested: bool, j: JoinView)
    ensures
        codec::decoded(node, nested) == Ok::<FlowView, Seq<char>>(FlowView::Join(j)) <==> {
            &&& is_node(node, nested, "join"@, 3, 7)
            &&& may_be_text(field(node, 0, "id"@), j.id)
            &&& may_be_text(field(node, 1, "label"@), j.label)
            &&& is_text(field(node, 2, "from"@), j.from)
            &&& is_mode(field(node, 3, "mode"@), j.mode)
            &&& may_be_count(field(node, 4, "quorum"@), j.quorum)
            &&& may_be_reducer(field(node, 5, "reducer"@), j.reducer)
            &&& may_be_policy(field(node, 6, "onFailure"@), j.on_failure)
        },
{
    canonical::lemma_marks();
    lemma_mode(field(node, 3, "mode"@), j.mode);
    lemma_reducer(field(node, 5, "reducer"@), j.reducer);
    lemma_policy(field(node, 6, "onFailure"@), j.on_failure);
    let faults = codec::join_faults(node);
    codec::lemma_first(faults);
    codec::lemma_decoded_parts(node, nested);
    if codec::first(faults) is None {
        assert(faults[0] is None && faults[1] is None && faults[2] is None && faults[3] is None);
        assert(faults[4] is None && faults[5] is None && faults[6] is None && faults[7] is None);
        if !(node is Array) {
            assert(faults[8] is None);
        }
    }
}

/// A node is read as a sequence exactly where its fields denote it: its steps are nodes,
/// read one by one.
#[verifier::rlimit(40)]
pub proof fn lemma_sequences_are_read(node: JsonView, nested: bool, s: SequenceView)
    ensures
        codec::decoded(node, nested) == Ok::<FlowView, Seq<char>>(FlowView::Sequence(s)) <==> {
            &&& is_node(node, nested, "sequence"@, 1, 3)
            &&& may_be_text(field(node, 0, "id"@), s.id)
            &&& may_be_text(field(node, 1, "label"@), s.label)
            &&& field(node, 2, "steps"@) matches Some(JsonView::Array(items))
            &&& items.len() == s.steps.len()
            &&& forall|i: int|
                0 <= i < items.len() ==> codec::decoded(#[trigger] items[i], true) == Ok::<
                    FlowView,
                    Seq<char>,
                >(s.steps[i])
        },
{
    canonical::lemma_marks();
    let steps = field(node, 2, "steps"@);
    let read = match steps {
        None => Ok(None),
        Some(JsonView::Array(items)) => codec::present(
            codec::decoded_steps(steps->0, items.len()),
        ),
        Some(other) => Err(codec::wrong_type(other, "a sequence"@)),
    };
    let faults = codec::sequence_faults(node, read);
    codec::lemma_first(faults);
    codec::lemma_decoded_parts(node, nested);
    match steps {
        Some(JsonView::Array(items)) => {
            lemma_these_steps_are_read(items, s.steps);
        },
        _ => {},
    }
    if codec::node_kind(node, nested) == Ok::<NodeKind, Seq<char>>(NodeKind::Sequence) {
        assert(codec::decoded(node, nested) == codec::assembled_sequence(node, read));
        if codec::first(faults) is None {
            codec::lemma_sequence_is_complete(node, read);
            assert(faults[3] is None);
            assert(faults[2] is None);
        }
    }
}

proof fn lemma_these_steps_are_read(items: Seq<JsonView>, steps: Seq<FlowView>)
    ensures
        codec::decoded_steps(JsonView::Array(items), items.len()) == Ok::<Seq<FlowView>, Seq<char>>(
            steps,
        ) <==> {
            &&& items.len() == steps.len()
            &&& forall|i: int|
                0 <= i < items.len() ==> codec::decoded(#[trigger] items[i], true) == Ok::<
                    FlowView,
                    Seq<char>,
                >(steps[i])
        },
{
    lemma_steps_are_read(items, items.len());
    match codec::decoded_steps(JsonView::Array(items), items.len()) {
        Ok(done) => {
            if done.len() == steps.len() && forall|i: int|
                0 <= i < items.len() ==> codec::decoded(#[trigger] items[i], true) == Ok::<
                    FlowView,
                    Seq<char>,
                >(steps[i]) {
                assert forall|i: int| 0 <= i < done.len() implies done[i] == steps[i] by {
                    assert(codec::decoded(items[i], true) == Ok::<FlowView, Seq<char>>(done[i]));
                }
                assert(done =~= steps);
            }
        },
        Err(_) => {},
    }
}

proof fn lemma_steps_are_read(items: Seq<JsonView>, n: nat)
    requires
        n <= items.len(),
    ensures
        match codec::decoded_steps(JsonView::Array(items), n) {
            Ok(done) => {
                &&& done.len() == n
                &&& forall|i: int|
                    0 <= i < n ==> codec::decoded(#[trigger] items[i], true) == Ok::<
                        FlowView,
                        Seq<char>,
                    >(done[i])
            },
            Err(_) => exists|i: int|
                0 <= i < n && codec::decoded(#[trigger] items[i], true) is Err,
        },
    decreases n,
{
    if n > 0 {
        lemma_steps_are_read(items, (n - 1) as nat);
        let all = JsonView::Array(items);
        match codec::decoded_steps(all, (n - 1) as nat) {
            Ok(done) => match codec::decoded(items[n - 1], true) {
                Ok(step) => {
                    assert(codec::decoded_steps(all, n) == Ok::<Seq<FlowView>, Seq<char>>(
                        done.push(step),
                    ));
                },
                Err(message) => {
                    assert(codec::decoded_steps(all, n) == Err::<Seq<FlowView>, Seq<char>>(
                        message,
                    ));
                },
            },
            Err(_) => {},
        }
    }
}

/// A node is read as a fork exactly where its fields denote it: its branches are nodes,
/// read one by one, each under its key.
#[verifier::rlimit(40)]
pub proof fn lemma_forks_are_read(node: JsonView, nested: bool, k: ForkView)
    ensures
        codec::decoded(node, nested) == Ok::<FlowView, Seq<char>>(FlowView::Fork(k)) <==> {
            &&& is_node(node, nested, "fork"@, 2, 4)
            &&& is_text(field(node, 0, "id"@), k.id)
            &&& may_be_text(field(node, 1, "label"@), k.label)
            &&& may_be_count(field(node, 3, "concurrency"@), k.concurrency)
            &&& field(node, 2, "branches"@) matches Some(JsonView::Object(entries))
            &&& entries.len() == k.branches.len()
            &&& forall|i: int|
                0 <= i < entries.len() ==> k.branches[i].0 == (#[trigger] entries[i]).0
                    && codec::decoded(entries[i].1, true) == Ok::<FlowView, Seq<char>>(
                    k.branches[i].1,
                )
        },
{
    canonical::lemma_marks();
    let branches = field(node, 2, "branches"@);
    let read = match branches {
        None => Ok(None),
        Some(JsonView::Object(entries)) => codec::present(
            codec::decoded_branches(branches->0, entries.len()),
        ),
        Some(other) => Err(codec::wrong_type(other, "a map"@)),
    };
    match branches {
        Some(JsonView::Object(entries)) => {
            lemma_these_branches_are_read(entries, k.branches);
        },
        _ => {},
    }
    if codec::node_kind(node, nested) == Ok::<NodeKind, Seq<char>>(NodeKind::Fork) {
        assert(codec::decoded(node, nested) == codec::assembled_fork(node, read));
        lemma_assembled_forks(node, read, k);
    } else {
        codec::lemma_decoded_parts(node, nested);
    }
}

proof fn lemma_assembled_forks(
    node: JsonView,
    read: Result<Option<Seq<(Seq<char>, FlowView)>>, Seq<char>>,
    k: ForkView,
)
    requires
        node is Object || node is Array,
        read == Ok::<Option<Seq<(Seq<char>, FlowView)>>, Seq<char>>(None) ==> field(
            node,
            2,
            "branches"@,
        ) is None,
    ensures
        codec::assembled_fork(node, read) == Ok::<FlowView, Seq<char>>(FlowView::Fork(k)) <==> {
            &&& node is Array ==> node->Array_0.len() == 5
            &&& is_text(field(node, 0, "id"@), k.id)
            &&& may_be_text(field(node, 1, "label"@), k.label)
            &&& may_be_count(field(node, 3, "concurrency"@), k.concurrency)
            &&& read == Ok::<Option<Seq<(Seq<char>, FlowView)>>, Seq<char>>(Some(k.branches))
        },
{
    let faults = codec::fork_faults(node, read);
    codec::lemma_first(faults);
    if codec::first(faults) is None {
        codec::lemma_fork_is_complete(node, read);
        assert(faults[4] is None);
        assert(faults[3] is None);
    }
}

proof fn lemma_these_branches_are_read(
    entries: Seq<(Seq<char>, JsonView)>,
    branches: Seq<(Seq<char>, FlowView)>,
)
    ensures
        codec::decoded_branches(JsonView::Object(entries), entries.len()) == Ok::<
            Seq<(Seq<char>, FlowView)>,
            Seq<char>,
        >(branches) <==> {
            &&& entries.len() == branches.len()
            &&& forall|i: int|
                0 <= i < entries.len() ==> branches[i].0 == (#[trigger] entries[i]).0
                    && codec::decoded(entries[i].1, true) == Ok::<FlowView, Seq<char>>(
                    branches[i].1,
                )
        },
{
    lemma_branches_are_read(entries, entries.len());
    match codec::decoded_branches(JsonView::Object(entries), entries.len()) {
        Ok(done) => {
            if done.len() == branches.len() && forall|i: int|
                0 <= i < entries.len() ==> branches[i].0 == (#[trigger] entries[i]).0
                    && codec::decoded(entries[i].1, true) == Ok::<FlowView, Seq<char>>(
                    branches[i].1,
                ) {
                assert forall|i: int| 0 <= i < done.len() implies done[i] == branches[i] by {
                    assert(entries[i] == entries[i]);
                }
                assert(done =~= branches);
            }
        },
        Err(_) => {},
    }
}

proof fn lemma_branches_are_read(entries: Seq<(Seq<char>, JsonView)>, n: nat)
    requires
        n <= entries.len(),
    ensures
        match codec::decoded_branches(JsonView::Object(entries), n) {
            Ok(done) => {
                &&& done.len() == n
                &&& forall|i: int|
                    0 <= i < n ==> done[i].0 == (#[trigger] entries[i]).0 && codec::decoded(
                        entries[i].1,
                        true,
                    ) == Ok::<FlowView, Seq<char>>(done[i].1)
            },
            Err(_) => exists|i: int|
                0 <= i < n && codec::decoded((#[trigger] entries[i]).1, true) is Err,
        },
    decreases n,
{
    if n > 0 {
        lemma_branches_are_read(entries, (n - 1) as nat);
        let all = JsonView::Object(entries);
        match codec::decoded_branches(all, (n - 1) as nat) {
            Ok(done) => match codec::decoded(entries[n - 1].1, true) {
                Ok(branch) => {
                    assert(codec::decoded_branches(all, n) == Ok::<
                        Seq<(Seq<char>, FlowView)>,
                        Seq<char>,
                    >(done.push((entries[n - 1].0, branch))));
                },
                Err(message) => {
                    assert(codec::decoded_branches(all, n) == Err::<
                        Seq<(Seq<char>, FlowView)>,
                        Seq<char>,
                    >(message));
                    assert(codec::decoded(entries[n - 1].1, true) is Err);
                },
            },
            Err(_) => {},
        }
    }
}

/// A node is read as a loop exactly where its fields denote it; a condition of `null` is
/// none.
#[verifier::rlimit(40)]
pub proof fn lemma_loops_are_read(node: JsonView, nested: bool, l: LoopView)
    ensures
        codec::decoded(node, nested) == Ok::<FlowView, Seq<char>>(FlowView::Loop(l)) <==> {
            &&& is_node(node, nested, "loop"@, 4, 5)
            &&& is_text(field(node, 0, "id"@), l.id)
            &&& may_be_text(field(node, 1, "label"@), l.label)
            &&& is_count(field(node, 3, "maxIterations"@), l.max_iterations)
            &&& match l.continue_when {
                Some(value) => field(node, 4, "continueWhen"@) == Some(value) && !(value is Null),
                None => field(node, 4, "continueWhen"@) is None || field(node, 4, "continueWhen"@)
                    == Some(JsonView::Null),
            }
            &&& field(node, 2, "body"@) matches Some(body)
            &&& codec::decoded(body, true) == Ok::<FlowView, Seq<char>>(*l.body)
        },
{
    canonical::lemma_marks();
    let body = field(node, 2, "body"@);
    let read = match body {
        None => Ok(None),
        Some(body) => codec::present(codec::decoded(body, true)),
    };
    let faults = codec::loop_faults(node, read);
    codec::lemma_first(faults);
    codec::lemma_decoded_parts(node, nested);
    if codec::node_kind(node, nested) == Ok::<NodeKind, Seq<char>>(NodeKind::Loop) {
        assert(codec::decoded(node, nested) == codec::assembled_loop(node, read));
        if codec::first(faults) is None {
            codec::lemma_loop_is_complete(node, read);
            assert(faults[5] is None);
            assert(faults[4] is None);
        }
    }
}

// ---------------------------------------------------------------------------
// Writing
// ---------------------------------------------------------------------------

/// A choice that is written by its name where it is made, and left out otherwise.
pub open spec fn written_choice(value: Option<JsonView>, name: Option<Seq<char>>) -> bool {
    match name {
        Some(name) => value == Some(JsonView::Text(name)),
        None => value is None,
    }
}

/// The name of an output mode.
pub open spec fn output_word(output: Option<OutputMode>) -> Option<Seq<char>> {
    match output {
        Some(OutputMode::Text) => Some("text"@),
        Some(OutputMode::Json) => Some("json"@),
        None => None,
    }
}

/// A flow is written as an object of its kind, with its fields under their names, and
/// nothing else; a field without a value is left out.
pub proof fn lemma_flows_are_written(f: FlowView)
    ensures
        ({
            &&& codec::encoded(f) matches JsonView::Object(out)
            &&& match f {
                FlowView::Spawn(s) => {
                    &&& is_text(ordered::lookup(out, "kind"@), "spawn"@)
                    &&& written_choice(ordered::lookup(out, "id"@), s.id)
                    &&& written_choice(ordered::lookup(out, "label"@), s.label)
                    &&& is_text(ordered::lookup(out, "agent"@), s.agent)
                    &&& is_text(ordered::lookup(out, "task"@), s.task)
                    &&& written_choice(ordered::lookup(out, "cwd"@), s.cwd)
                    &&& written_choice(ordered::lookup(out, "output"@), output_word(s.output))
                    &&& forall|key: Seq<char>|
                        key != "kind"@ && key != "id"@ && key != "label"@ && key != "agent"@ && key
                            != "task"@ && key != "cwd"@ && key != "output"@ ==> (
                        #[trigger] ordered::lookup(out, key)) is None
                },
                FlowView::Sequence(s) => {
                    &&& is_text(ordered::lookup(out, "kind"@), "sequence"@)
                    &&& written_choice(ordered::lookup(out, "id"@), s.id)
                    &&& written_choice(ordered::lookup(out, "label"@), s.label)
                    &&& ordered::lookup(out, "steps"@) == Some(
                        JsonView::Array(
                            Seq::new(s.steps.len(), |i: int| codec::encoded(s.steps[i])),
                        ),
                    )
                    &&& forall|key: Seq<char>|
                        key != "kind"@ && key != "id"@ && key != "label"@ && key != "steps"@ ==> (
                        #[trigger] ordered::lookup(out, key)) is None
                },
                FlowView::Fork(k) => {
                    &&& is_text(ordered::lookup(out, "kind"@), "fork"@)
                    &&& is_text(ordered::lookup(out, "id"@), k.id)
                    &&& written_choice(ordered::lookup(out, "label"@), k.label)
                    &&& match k.concurrency {
                        Some(n) => is_count(ordered::lookup(out, "concurrency"@), n),
                        None => ordered::lookup(out, "concurrency"@) is None,
                    }
                    &&& ordered::lookup(out, "branches"@) == Some(
                        JsonView::Object(
                            Seq::new(
                                k.branches.len(),
                                |i: int| (k.branches[i].0, codec::encoded(k.branches[i].1)),
                            ),
                        ),
                    )
                    &&& forall|key: Seq<char>|
                        key != "kind"@ && key != "id"@ && key != "label"@ && key != "concurrency"@
                            && key != "branches"@ ==> (#[trigger] ordered::lookup(
                            out,
                            key,
                        )) is None
                },
                FlowView::Join(j) => {
                    &&& is_text(ordered::lookup(out, "kind"@), "join"@)
                    &&& written_choice(ordered::lookup(out, "id"@), j.id)
                    &&& written_choice(ordered::lookup(out, "label"@), j.label)
                    &&& is_text(ordered::lookup(out, "from"@), j.from)
                    &&& is_text(
                        ordered::lookup(out, "mode"@),
                        match j.mode {
                            JoinMode::All => "all"@,
                            JoinMode::Any => "any"@,
                            JoinMode::Quorum => "quorum"@,
                        },
                    )
                    &&& match j.quorum {
                        Some(n) => is_count(ordered::lookup(out, "quorum"@), n),
                        None => ordered::lookup(out, "quorum"@) is None,
                    }
                    &&& match j.reducer {
                        None => ordered::lookup(out, "reducer"@) is None,
                        Some(ReducerView::Collect) => ordered::lookup(out, "reducer"@) == Some(
                            JsonView::Object(seq![("kind"@, JsonView::Text("collect"@))]),
                        ),
                        Some(ReducerView::Agent(r)) => reducer_is_written(
                            ordered::lookup(out, "reducer"@),
                            r,
                        ),
                    }
                    &&& written_choice(
                        ordered::lookup(out, "onFailure"@),
                        match j.on_failure {
                            Some(OnFailure::FailFast) => Some("failFast"@),
                            Some(OnFailure::CollectErrors) => Some("collectErrors"@),
                            None => None,
                        },
                    )
                    &&& forall|key: Seq<char>|
                        key != "kind"@ && key != "id"@ && key != "label"@ && key != "from"@ && key
                            != "mode"@ && key != "quorum"@ && key != "reducer"@ && key
                            != "onFailure"@ ==> (#[trigger] ordered::lookup(out, key)) is None
                },
                FlowView::Loop(l) => {
                    &&& is_text(ordered::lookup(out, "kind"@), "loop"@)
                    &&& is_text(ordered::lookup(out, "id"@), l.id)
                    &&& written_choice(ordered::lookup(out, "label"@), l.label)
                    &&& ordered::lookup(out, "body"@) == Some(codec::encoded(*l.body))
                    &&& is_count(ordered::lookup(out, "maxIterations"@), l.max_iterations)
                    &&& ordered::lookup(out, "continueWhen"@) == l.continue_when
                    &&& forall|key: Seq<char>|
                        key != "kind"@ && key != "id"@ && key != "label"@ && key != "body"@ && key
                            != "maxIterations"@ && key != "continueWhen"@ ==> (
                        #[trigger] ordered::lookup(out, key)) is None
                },
            }
        }),
{
    broadcast use ordered::lemma_lookup_put;

    canonical::lemma_marks();
    assert(forall|key: Seq<char>|
        ordered::lookup(Seq::<(Seq<char>, JsonView)>::empty(), key) is None);
    match f {
        FlowView::Sequence(s) => {
            codec::lemma_encoded_steps(s.steps, s.steps.len());
            assert(codec::encoded_steps(s.steps, s.steps.len()) =~= Seq::new(
                s.steps.len(),
                |i: int| codec::encoded(s.steps[i]),
            ));
        },
        FlowView::Fork(k) => {
            codec::lemma_encoded_branches(k.branches, k.branches.len());
            assert(codec::encoded_branches(k.branches, k.branches.len()) =~= Seq::new(
                k.branches.len(),
                |i: int| (k.branches[i].0, codec::encoded(k.branches[i].1)),
            ));
        },
        FlowView::Join(j) => {
            match j.reducer {
                Some(ReducerView::Agent(r)) => {
                    assert(reducer_is_written(
                        Some(codec::encoded_reducer(ReducerView::Agent(r))),
                        r,
                    ));
                },
                _ => {},
            }
        },
        _ => {},
    }
}

/// A reducing agent is written as an object with its fields, and nothing else.
pub open spec fn reducer_is_written(value: Option<JsonView>, r: AgentReducerView) -> bool {
    &&& value matches Some(JsonView::Object(out))
    &&& is_text(ordered::lookup(out, "kind"@), "agent"@)
    &&& is_text(ordered::lookup(out, "agent"@), r.agent)
    &&& is_text(ordered::lookup(out, "task"@), r.task)
    &&& written_choice(ordered::lookup(out, "output"@), output_word(r.output))
    &&& forall|key: Seq<char>|
        key != "kind"@ && key != "agent"@ && key != "task"@ && key != "output"@ ==> (
        #[trigger] ordered::lookup(out, key)) is None
}

} // verus!
