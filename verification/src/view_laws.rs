//! What the contents of values hold: every field of a value, as it is.

use vstd::prelude::*;
use vstd::string::*;
use crate::canonical;
use crate::executor;
use crate::executor::{Call, Fault, Progress, State, ToolError, Transcript};
use crate::extension;
use crate::extension::{ExtensionManifest, ExtensionRef, HookKind};
use crate::flow;
use crate::flow::{
    FlowSpec, FlowView, ForkSpec, JoinReducer, JoinSpec, LoopSpec, NodeKind, ReducerView,
    SequenceSpec, SpawnSpec,
};
use crate::json::{Json, JsonNumber, JsonView, NumberView};
use crate::normalize;
use crate::normalize::SpawnDefaults;
use crate::ordered;
use crate::ordered::SortedMap;
use crate::references;
use crate::service;
use crate::service::{Event, EventView, Phase, PhaseView, ServiceError};

verus! {

// ---------------------------------------------------------------------------
// Texts and JSON values
// ---------------------------------------------------------------------------

/// What is optional is there in the content exactly where it is there, and is the same.
pub proof fn lemma_optional_contents(text: String, borrowed: &str, value: Json)
    ensures
        flow::text_option(Some(text)) == Some(text@),
        flow::text_option(None) is None,
        executor::str_option(Some(borrowed)) == Some(borrowed@),
        executor::str_option(None) is None,
        canonical::json_option(Some(value)) == Some(value@),
        canonical::json_option(None) is None,
{
}

/// The content of a JSON value is of the kind of the value and holds what the value holds:
/// an array its elements in their order, an object its entries under their keys.
pub proof fn lemma_json_contents(b: bool, text: String, items: Vec<Json>, map: SortedMap<Json>)
    ensures
        Json::Null@ == JsonView::Null,
        Json::Bool(b)@ == JsonView::Bool(b),
        Json::Text(text)@ == JsonView::Text(text@),
        Json::Array(items)@ matches JsonView::Array(elements) && elements.len() == items@.len()
            && forall|i: int| 0 <= i < elements.len() ==> (#[trigger] elements[i]) == items@[i]@,
        Json::Object(map)@ matches JsonView::Object(entries) && entries.len() == map@.len()
            && forall|i: int|
            0 <= i < entries.len() ==> (#[trigger] entries[i]) == (map@[i].0, map@[i].1@),
{
    Json::Array(items).lemma_view();
    Json::Object(map).lemma_view();
}

/// The content of an integer is its value, of whichever sign.
pub proof fn lemma_number_contents(unsigned: u64, signed: i64)
    ensures
        Json::Number(JsonNumber::Unsigned(unsigned))@ == JsonView::Number(
            NumberView::Integer(unsigned as int),
        ),
        Json::Number(JsonNumber::Signed(signed))@ == JsonView::Number(
            NumberView::Integer(signed as int),
        ),
{
}

/// What a value says when it is asked for a text, a count or a member: only a text is a
/// text, only an integer in the range of `u64` is a count, and only an object has members.
pub proof fn lemma_values_are_asked(value: JsonView, key: Seq<char>)
    ensures
        match value {
            JsonView::Text(text) => value.as_text() == Some(text),
            _ => value.as_text() is None,
        },
        match value {
            JsonView::Number(NumberView::Integer(n)) => if 0 <= n <= u64::MAX {
                value.as_u64() matches Some(count) && count == n
            } else {
                value.as_u64() is None
            },
            _ => value.as_u64() is None,
        },
        match value {
            JsonView::Object(entries) => match value.member(key) {
                Some(member) => exists|i: int|
                    0 <= i < entries.len() && (#[trigger] entries[i]) == (key, member),
                None => forall|i: int|
                    0 <= i < entries.len() ==> (#[trigger] entries[i]).0 != key,
            },
            _ => value.member(key) is None,
        },
{
    match value {
        JsonView::Object(entries) => {
            lemma_lookups_find_entries(entries, key);
        },
        _ => {},
    }
}

/// A lookup finds an entry with the key, and fails only where there is none.
pub proof fn lemma_lookups_find_entries<V>(entries: Seq<(Seq<char>, V)>, key: Seq<char>)
    ensures
        match ordered::lookup(entries, key) {
            Some(found) => exists|i: int|
                0 <= i < entries.len() && (#[trigger] entries[i]) == (key, found),
            None => forall|i: int| 0 <= i < entries.len() ==> (#[trigger] entries[i]).0 != key,
        },
    decreases entries.len(),
{
    if entries.len() > 0 {
        if entries[0].0 == key {
            assert(entries[0] == (key, entries[0].1));
        } else {
            let rest = entries.drop_first();
            assert(forall|i: int| 0 <= i < rest.len() ==> rest[i] == entries[i + 1]);
            lemma_lookups_find_entries(rest, key);
            match ordered::lookup(rest, key) {
                Some(found) => {
                    let i = choose|i: int|
                        0 <= i < rest.len() && (#[trigger] rest[i]) == (key, found);
                    assert(entries[i + 1] == (key, found));
                },
                None => {
                    assert forall|i: int| 0 <= i < entries.len() implies (
                    #[trigger] entries[i]).0 != key by {
                        if i > 0 {
                            assert(rest[i - 1].0 != key);
                        }
                    }
                },
            }
        }
    }
}

// ---------------------------------------------------------------------------
// Flows
// ---------------------------------------------------------------------------

/// The content of a spawn holds each of its fields.
pub proof fn lemma_spawn_contents(s: SpawnSpec)
    ensures
        FlowSpec::Spawn(s)@ == FlowView::Spawn(s@),
        s.id matches Some(id) ==> s@.id == Some(id@),
        s.id is None ==> s@.id is None,
        s.label matches Some(label) ==> s@.label == Some(label@),
        s.label is None ==> s@.label is None,
        s@.agent == s.agent@,
        s@.task == s.task@,
        s.cwd matches Some(cwd) ==> s@.cwd == Some(cwd@),
        s.cwd is None ==> s@.cwd is None,
        s@.output == s.output,
{
}

/// The content of a join holds each of its fields.
pub proof fn lemma_join_contents(j: JoinSpec)
    ensures
        FlowSpec::Join(j)@ == FlowView::Join(j@),
        j.id matches Some(id) ==> j@.id == Some(id@),
        j.id is None ==> j@.id is None,
        j.label matches Some(label) ==> j@.label == Some(label@),
        j.label is None ==> j@.label is None,
        j@.from == j.from@,
        j@.mode == j.mode,
        j@.quorum == j.quorum,
        j.reducer is None ==> j@.reducer is None,
        j.reducer == Some(JoinReducer::Collect) ==> j@.reducer == Some(ReducerView::Collect),
        j.reducer matches Some(JoinReducer::Agent(r)) ==> (j@.reducer matches Some(
            ReducerView::Agent(content),
        ) && content.agent == r.agent@ && content.task == r.task@ && content.output == r.output),
        j@.on_failure == j.on_failure,
{
}

/// The content of a sequence holds each of its fields, and its steps in their order.
pub proof fn lemma_sequence_contents(s: SequenceSpec)
    ensures
        FlowSpec::Sequence(s)@ matches FlowView::Sequence(content) && {
            &&& s.id matches Some(id) ==> content.id == Some(id@)
            &&& s.id is None ==> content.id is None
            &&& s.label matches Some(label) ==> content.label == Some(label@)
            &&& s.label is None ==> content.label is None
            &&& content.steps.len() == s.steps@.len()
            &&& forall|i: int|
                0 <= i < content.steps.len() ==> (#[trigger] content.steps[i]) == s.steps@[i]@
        },
{
    FlowSpec::Sequence(s).lemma_view();
}

/// The content of a fork holds each of its fields, and its branches under their keys.
pub proof fn lemma_fork_contents(f: ForkSpec)
    ensures
        FlowSpec::Fork(f)@ matches FlowView::Fork(content) && {
            &&& content.id == f.id@
            &&& f.label matches Some(label) ==> content.label == Some(label@)
            &&& f.label is None ==> content.label is None
            &&& content.concurrency == f.concurrency
            &&& content.branches.len() == f.branches@.len()
            &&& forall|i: int|
                0 <= i < content.branches.len() ==> (#[trigger] content.branches[i]) == (
                    f.branches@[i].0,
                    f.branches@[i].1@,
                )
        },
{
    FlowSpec::Fork(f).lemma_view();
}

/// The content of a loop holds each of its fields.
pub proof fn lemma_loop_contents(l: LoopSpec)
    ensures
        FlowSpec::Loop(l)@ matches FlowView::Loop(content) && {
            &&& content.id == l.id@
            &&& l.label matches Some(label) ==> content.label == Some(label@)
            &&& l.label is None ==> content.label is None
            &&& *content.body == l.body@
            &&& content.max_iterations == l.max_iterations
            &&& l.continue_when matches Some(value) ==> content.continue_when == Some(value@)
            &&& l.continue_when is None ==> content.continue_when is None
        },
{
}

/// The content of what a fork hands down holds each of its fields.
pub proof fn lemma_default_contents(d: SpawnDefaults)
    ensures
        d.agent matches Some(agent) ==> d@.agent == Some(agent@),
        d.agent is None ==> d@.agent is None,
        d.task_template matches Some(template) ==> d@.task_template == Some(template@),
        d.task_template is None ==> d@.task_template is None,
        d.cwd matches Some(cwd) ==> d@.cwd == Some(cwd@),
        d.cwd is None ==> d@.cwd is None,
        d.output matches Some(output) ==> d@.output == Some(output@),
        d.output is None ==> d@.output is None,
        d.branch_key matches Some(key) ==> d@.branch_key == Some(key@),
        d.branch_key is None ==> d@.branch_key is None,
{
}

/// A result that agrees with what is wanted is that, value for value and message for
/// message.
pub proof fn lemma_agreement(
    lowered: Result<Json, String>,
    wanted: Result<JsonView, Seq<char>>,
    checked: Result<(), String>,
    ids: SortedMap<NodeKind>,
    wanted_ids: Result<Seq<(Seq<char>, NodeKind)>, Seq<char>>,
    joined: SortedMap<String>,
    wanted_joins: Result<Seq<(Seq<char>, Seq<char>)>, Seq<char>>,
)
    ensures
        normalize::agrees(lowered, wanted) ==> match (lowered, wanted) {
            (Ok(value), Ok(content)) => value@ == content,
            (Err(message), Err(content)) => message@ == content,
            _ => false,
        },
        references::ids_agree(checked, ids, wanted_ids) ==> match (checked, wanted_ids) {
            (Ok(_), Ok(content)) => ids@ == content,
            (Err(message), Err(content)) => message@ == content,
            _ => false,
        },
        references::joins_agree(checked, joined, wanted_joins) ==> match (checked, wanted_joins) {
            (Ok(_), Ok(content)) => joined@.len() == content.len() && forall|i: int|
                0 <= i < content.len() ==> (#[trigger] content[i]) == (
                    joined@[i].0,
                    joined@[i].1@,
                ),
            (Err(message), Err(content)) => message@ == content,
            _ => false,
        },
{
}

// ---------------------------------------------------------------------------
// Runs
// ---------------------------------------------------------------------------

/// The content of an error, of a reply, of a value and of a state says what it was: a bad
/// argument or a failed execution, with its message; an answer, with its text; an end, with
/// its value.
pub proof fn lemma_reply_contents(message: String, text: String, error: ToolError, value: Json)
    ensures
        ToolError::InvalidArgument(message)@ == Fault::InvalidArgument(message@),
        ToolError::Execution(message)@ == Fault::Execution(message@),
        error@.message() == match error {
            ToolError::InvalidArgument(message) => message@,
            ToolError::Execution(message) => message@,
        },
        executor::reply_view(Ok(text)) == Ok::<Seq<char>, Fault>(text@),
        executor::reply_view(Err(error)) == Err::<Seq<char>, Fault>(error@),
        executor::value_view(Ok(value)) == Ok::<JsonView, Fault>(value@),
        executor::value_view(Err(error)) == Err::<JsonView, Fault>(error@),
        Progress::Done(value)@ == State::Done(value@),
        Progress::Failed(error)@ == State::Failed(error@),
        Progress::Waiting@ == State::Waiting,
{
}

/// The content of a list of calls holds every call in its place, with its site number by
/// number, its agent and its task.
pub proof fn lemma_call_contents(calls: Seq<Call>, i: int)
    requires
        0 <= i < calls.len(),
    ensures
        executor::call_views(calls).len() == calls.len(),
        executor::call_views(calls)[i].agent == calls[i].agent@,
        executor::call_views(calls)[i].task == calls[i].task@,
        executor::call_views(calls)[i].site.len() == calls[i].site@.len(),
        forall|k: int|
            0 <= k < calls[i].site@.len() ==> executor::call_views(calls)[i].site[k]
                == #[trigger] calls[i].site@[k],
{
}

/// A transcript holds, for a site, the reply that was recorded for it first, and nothing
/// where none was.
pub proof fn lemma_transcripts_hold_the_first_reply(
    log: Transcript,
    site: Seq<int>,
)
    ensures
        log@.contains_key(site) <==> exists|i: int|
            #![trigger log.pairs()[i]]
            0 <= i < log.pairs().len() && executor::site_view(log.pairs()[i].0@) == site,
        forall|i: int|
            #![trigger log.pairs()[i]]
            0 <= i < log.pairs().len() && executor::site_view(log.pairs()[i].0@) == site && (
            forall|j: int|
                0 <= j < i ==> executor::site_view((#[trigger] log.pairs()[j]).0@) != site)
                ==> log@[site] == match log.pairs()[i].1 {
                Ok(text) => Ok::<Seq<char>, Fault>(text@),
                Err(error) => Err::<Seq<char>, Fault>(error@),
            },
{
    lemma_first_is_heard(log.pairs(), site);
}

proof fn lemma_first_is_heard(
    entries: Seq<(Vec<usize>, Result<String, ToolError>)>,
    site: Seq<int>,
)
    ensures
        executor::heard(entries, site) is Some <==> exists|i: int|
            #![trigger entries[i]]
            0 <= i < entries.len() && executor::site_view(entries[i].0@) == site,
        forall|i: int|
            #![trigger entries[i]]
            0 <= i < entries.len() && executor::site_view(entries[i].0@) == site && (forall|j: int|
                0 <= j < i ==> executor::site_view((#[trigger] entries[j]).0@) != site)
                ==> executor::heard(entries, site) == Some(executor::reply_view(entries[i].1)),
    decreases entries.len(),
{
    if entries.len() > 0 {
        let rest = entries.drop_first();
        assert(forall|i: int| 0 <= i < rest.len() ==> rest[i] == entries[i + 1]);
        lemma_first_is_heard(rest, site);
        if executor::site_view(entries[0].0@) == site {
            assert forall|i: int|
                #![trigger entries[i]]
                0 <= i < entries.len() && executor::site_view(entries[i].0@) == site && (forall|
                    j: int,
                |
                    0 <= j < i ==> executor::site_view((#[trigger] entries[j]).0@)
                        != site) implies executor::heard(entries, site) == Some(
                executor::reply_view(entries[i].1),
            ) by {
                if i > 0 {
                    assert(executor::site_view(entries[0].0@) != site);
                }
            }
        } else {
            if executor::heard(rest, site) is Some {
                let k = choose|k: int|
                    #![trigger rest[k]]
                    0 <= k < rest.len() && executor::site_view(rest[k].0@) == site;
                assert(executor::site_view(entries[k + 1].0@) == site);
            } else {
                assert forall|i: int|
                    #![trigger entries[i]]
                    0 <= i < entries.len() implies executor::site_view(entries[i].0@) != site by {
                    if i > 0 {
                        assert(executor::site_view(rest[i - 1].0@) != site);
                    }
                }
            }
            assert forall|i: int|
                #![trigger entries[i]]
                0 <= i < entries.len() && executor::site_view(entries[i].0@) == site && (forall|
                    j: int,
                |
                    0 <= j < i ==> executor::site_view((#[trigger] entries[j]).0@)
                        != site) implies executor::heard(entries, site) == Some(
                executor::reply_view(entries[i].1),
            ) by {
                assert(i > 0);
                assert forall|j: int| 0 <= j < i - 1 implies executor::site_view(
                    (#[trigger] rest[j]).0@,
                ) != site by {
                    assert(executor::site_view(entries[j + 1].0@) != site);
                }
                assert(rest[i - 1] == entries[i]);
            }
        }
    }
}

// ---------------------------------------------------------------------------
// Extensions and the service
// ---------------------------------------------------------------------------

/// The manifest of a tool extension carries its name twice, takes part in tool calls alone
/// and deals in no capabilities.
pub proof fn lemma_tool_manifests(manifest: ExtensionManifest, name: Seq<char>)
    requires
        extension::tool_manifest(manifest, name),
    ensures
        manifest.name@ == name,
        manifest.extension_ref matches ExtensionRef::Builtin(own) && own@ == name,
        manifest.supported_hooks@.len() == 1,
        manifest.supported_hooks@[0] == HookKind::Tool,
        manifest.required_capabilities@.len() == 0,
        manifest.requested_capabilities@.len() == 0,
        manifest.provides_capabilities@.len() == 0,
{
}

/// The content of an event is that event, with its cause where it has one.
pub proof fn lemma_event_contents(ready: bool, cause: String, error: ServiceError, now: u128)
    ensures
        Event::Probed(ready)@ == EventView::Probed(ready),
        Event::Opened@ == EventView::Opened,
        Event::OpenFailed(cause)@ == EventView::OpenFailed(cause@),
        Event::Taken@ == EventView::Taken,
        Event::Busy@ == EventView::Busy,
        Event::TakeFailed(cause)@ == EventView::TakeFailed(cause@),
        Event::Released@ == EventView::Released,
        Event::Cleared@ == EventView::Cleared,
        Event::Missing@ == EventView::Missing,
        Event::ClearFailed(cause)@ == EventView::ClearFailed(cause@),
        Event::Spawned@ == EventView::Spawned,
        Event::SpawnFailed(error)@ == EventView::SpawnFailed(error@),
        Event::Clock(now)@ == EventView::Clock(now),
        Event::Rested@ == EventView::Rested,
        error@.message == error.message@,
        error.cause matches Some(cause) ==> error@.cause == Some(cause@),
        error.cause is None ==> error@.cause is None,
{
}

/// The content of a phase is that phase, with the moment or the outcome that it carries.
pub proof fn lemma_phase_contents(since: u128, error: ServiceError)
    ensures
        Phase::Looking@ == PhaseView::Looking,
        Phase::OpeningStart@ == PhaseView::OpeningStart,
        Phase::TakingStart@ == PhaseView::TakingStart,
        Phase::Rechecking@ == PhaseView::Rechecking,
        Phase::OpeningDaemon@ == PhaseView::OpeningDaemon,
        Phase::TakingDaemon@ == PhaseView::TakingDaemon,
        Phase::Confirming@ == PhaseView::Confirming,
        Phase::Clearing@ == PhaseView::Clearing,
        Phase::HandingOver@ == PhaseView::HandingOver,
        Phase::Spawning@ == PhaseView::Spawning,
        Phase::StandingBack@ == PhaseView::StandingBack,
        Phase::LeavingStart@ == PhaseView::LeavingStart,
        Phase::Timing@ == PhaseView::Timing,
        Phase::Probing(since)@ == PhaseView::Probing(since),
        Phase::Checking(since)@ == PhaseView::Checking(since),
        Phase::Resting(since)@ == PhaseView::Resting(since),
        Phase::Closing(Ok(()))@ == PhaseView::Closing(Ok(())),
        Phase::Closing(Err(error))@ == PhaseView::Closing(Err(error@)),
        Phase::Finished(Ok(()))@ == PhaseView::Finished(Ok(())),
        Phase::Finished(Err(error))@ == PhaseView::Finished(Err(error@)),
        service::outcome_view(Ok(())) == Ok::<(), service::Trouble>(()),
        service::outcome_view(Err(error)) == Err::<(), service::Trouble>(error@),
{
}

} // verus!
