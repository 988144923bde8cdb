//! The workflow engine: what a flow has come to, given the replies received so
//! far.
//!
//! A run is driven from outside. Every place in a flow that hands a task to an
//! agent is a call site; the replies received so far, by call site, are the
//! transcript. From a flow and a transcript the engine computes either the
//! flow's outcome or the calls to make next: task templating, sequence chaining,
//! fork concurrency and join reduction are decided here, and nothing here waits.

use vstd::prelude::*;
use vstd::string::*;
use crate::flow;
use crate::flow::{
    AgentReducer, FlowSpec, FlowView, ForkSpec, JoinMode, JoinReducer, JoinSpec, JoinView,
    OnFailure, OutputMode, ReducerView, SequenceSpec, SpawnSpec,
};
use crate::json;
use crate::json::{Json, JsonView};
use crate::ordered;
use crate::ordered::SortedMap;
use crate::text;

verus! {

broadcast use vstd::string::group_string_axioms;

/// How many branches of a fork run at a time where the fork does not say.
pub const DEFAULT_CONCURRENCY: usize = 4;

// ---------------------------------------------------------------------------
// Errors and replies
// ---------------------------------------------------------------------------

/// Why a tool call failed.
#[derive(Debug, PartialEq)]
pub enum ToolError {
    /// The arguments make no sense.
    InvalidArgument(String),
    /// The call was made and failed.
    Execution(String),
}

/// The content of a [`ToolError`].
pub enum Fault {
    InvalidArgument(Seq<char>),
    Execution(Seq<char>),
}

impl Fault {
    /// What the error says.
    pub open spec fn message(self) -> Seq<char> {
        match self {
            Fault::InvalidArgument(message) => message,
            Fault::Execution(message) => message,
        }
    }
}

impl ToolError {
    pub open spec fn view(self) -> Fault {
        match self {
            ToolError::InvalidArgument(message) => Fault::InvalidArgument(message@),
            ToolError::Execution(message) => Fault::Execution(message@),
        }
    }

    /// What the error says.
    pub fn message(&self) -> (message: &String)
        ensures
            message@ == self@.message(),
    {
        match self {
            ToolError::InvalidArgument(message) => message,
            ToolError::Execution(message) => message,
        }
    }
}

impl Clone for ToolError {
    fn clone(&self) -> (copy: ToolError)
        ensures
            copy@ == self@,
    {
        match self {
            ToolError::InvalidArgument(message) => ToolError::InvalidArgument(message.clone()),
            ToolError::Execution(message) => ToolError::Execution(message.clone()),
        }
    }
}

/// The content of what an agent replied.
pub open spec fn reply_view(reply: Result<String, ToolError>) -> Result<Seq<char>, Fault> {
    match reply {
        Ok(text) => Ok(text@),
        Err(error) => Err(error@),
    }
}

/// The content of a value or an error.
pub open spec fn value_view(value: Result<Json, ToolError>) -> Result<JsonView, Fault> {
    match value {
        Ok(value) => Ok(value@),
        Err(error) => Err(error@),
    }
}

// ---------------------------------------------------------------------------
// Text in and out of agents
// ---------------------------------------------------------------------------

/// The content of a borrowed optional text.
pub open spec fn str_option(text: Option<&str>) -> Option<Seq<char>> {
    match text {
        Some(text) => Some(text@),
        None => None,
    }
}

/// A task with `{previous}` replaced by the prior step's output, where there was
/// a prior step.
pub open spec fn filled(task: Seq<char>, previous: Option<Seq<char>>) -> Seq<char> {
    match previous {
        Some(previous) => text::replaced(task, "{previous}"@, previous),
        None => task,
    }
}

/// Replace the placeholder `{previous}` in a task by the prior step's output. A
/// task without the placeholder stays as it is.
pub fn apply_previous(task: &str, previous: Option<&str>) -> (result: String)
    ensures
        result@ == filled(task@, str_option(previous)),
        !text::occurs(task@, "{previous}"@) ==> result@ == task@,
{
    proof {
        reveal_strlit("{previous}");
    }
    match previous {
        Some(previous) => {
            if text::contains(task, "{previous}") {
                text::replace(task, "{previous}", previous)
            } else {
                proof {
                    text::lemma_replace_absent(task@, "{previous}"@, previous@);
                }
                task.to_owned()
            }
        },
        None => task.to_owned(),
    }
}

/// What stands in a markdown code fence: behind "```json" or "```" and before
/// "```", without the white space around it.
pub open spec fn fenced_text(text: Seq<char>) -> Option<Seq<char>> {
    let behind = if text::starts_with(text, "```json"@) {
        Some(text.skip("```json"@.len() as int))
    } else if text::starts_with(text, "```"@) {
        Some(text.skip("```"@.len() as int))
    } else {
        None
    };
    match behind {
        Some(rest) => if text::ends_with(rest, "```"@) {
            Some(text::trimmed(rest.take(rest.len() - "```"@.len())))
        } else {
            None
        },
        None => None,
    }
}

/// What stands in a markdown code fence.
pub fn fenced(text: &str) -> (inner: Option<String>)
    ensures
        flow::text_option(inner) == fenced_text(text@),
{
    let behind = match text::strip_prefix(text, "```json") {
        Some(rest) => Some(rest),
        None => text::strip_prefix(text, "```"),
    };
    match behind {
        Some(rest) => match text::strip_suffix(rest.as_str(), "```") {
            Some(inner) => Some(text::trim(inner.as_str())),
            None => None,
        },
        None => None,
    }
}

/// What is made of a reply that should be JSON: `whole` is what reading the
/// reply gives, and `inner` what reading the inside of its code fence gives.
pub open spec fn reading(empty: bool, whole: Option<JsonView>, inner: Option<JsonView>) -> Result<
    JsonView,
    Fault,
> {
    if empty {
        Err(Fault::Execution("expected JSON output but agent returned empty text"@))
    } else {
        match (whole, inner) {
            (Some(value), _) => Ok(value),
            (None, Some(value)) => Ok(value),
            (None, None) => Err(
                Fault::Execution("expected valid JSON output from delegated agent"@),
            ),
        }
    }
}

/// What is made of a reply that should be JSON, given what reading it, and
/// reading the inside of its code fence, gives.
pub fn chosen_reading(empty: bool, whole: Option<Json>, inner: Option<Json>) -> (result: Result<
    Json,
    ToolError,
>)
    ensures
        value_view(result) == reading(
            empty,
            match whole {
                Some(value) => Some(value@),
                None => None,
            },
            match inner {
                Some(value) => Some(value@),
                None => None,
            },
        ),
{
    if empty {
        return Err(
            ToolError::Execution("expected JSON output but agent returned empty text".to_owned()),
        );
    }
    match whole {
        Some(value) => Ok(value),
        None => match inner {
            Some(value) => Ok(value),
            None => Err(
                ToolError::Execution("expected valid JSON output from delegated agent".to_owned()),
            ),
        },
    }
}

/// A reply read as JSON: the reply itself, or else the inside of its code fence.
pub open spec fn json_reply(text: Seq<char>) -> Result<JsonView, Fault> {
    let inner = text::trimmed(text);
    reading(
        inner.len() == 0,
        json::parsed_json(inner),
        match fenced_text(inner) {
            Some(fenced) => json::parsed_json(fenced),
            None => None,
        },
    )
}

/// A text between the lines of a markdown code fence, with what stands around the
/// fence.
pub open spec fn in_fence(
    before: Seq<char>,
    opening: Seq<char>,
    inner: Seq<char>,
    after: Seq<char>,
) -> Seq<char> {
    before + (opening + "\n"@ + inner + "\n```"@) + after
}

/// The opening line of a code fence around JSON.
pub open spec fn opens_fence(opening: Seq<char>) -> bool {
    opening == "```json"@ || opening == "```"@
}

/// White space around a reply does not change what is read from it.
pub proof fn lemma_white_space_around_replies_is_ignored(
    before: Seq<char>,
    text: Seq<char>,
    after: Seq<char>,
)
    requires
        text::blank(before),
        text::blank(after),
    ensures
        json_reply(before + text + after) == json_reply(text),
{
    text::lemma_trimmed_around(before, text, after);
}

/// A code fence around JSON, and white space around the fence, do not change what is
/// read from a reply, as long as the fence is not JSON itself.
pub proof fn lemma_fences_around_replies_are_ignored(
    before: Seq<char>,
    opening: Seq<char>,
    inner: Seq<char>,
    after: Seq<char>,
)
    requires
        text::blank(before),
        text::blank(after),
        opens_fence(opening),
        json::parsed_json(text::trimmed(inner)) is Some,
        json::parsed_json(text::trimmed(in_fence(before, opening, inner, after))) is None,
    ensures
        json_reply(in_fence(before, opening, inner, after)) == Ok::<JsonView, Fault>(
            json::parsed_json(text::trimmed(inner))->0,
        ),
{
    lemma_fence_is_opened(before, opening, inner, after);
}

proof fn lemma_fence_is_opened(
    before: Seq<char>,
    opening: Seq<char>,
    inner: Seq<char>,
    after: Seq<char>,
)
    requires
        text::blank(before),
        text::blank(after),
        opens_fence(opening),
    ensures
        ({
            let whole = text::trimmed(in_fence(before, opening, inner, after));
            &&& whole.len() > 0
            &&& whole[0] == '`'
            &&& fenced_text(whole) == Some(text::trimmed(inner))
        }),
{
    reveal_strlit("```json");
    reveal_strlit("```");
    reveal_strlit("\n");
    reveal_strlit("\n```");
    let fence = opening + "\n"@ + inner + "\n```"@;
    let line = "\n"@;
    text::lemma_trimmed_around(before, fence, after);
    assert(fence[0] == '`' && fence.last() == '`');
    assert(!text::white_space('`'));
    assert(text::trimmed(fence) == fence);
    assert(fence.take(opening.len() as int) =~= opening);
    if opening == "```"@ {
        assert(fence.take(7)[3] == '\n');
        assert(!text::starts_with(fence, "```json"@));
    }
    let rest = fence.skip(opening.len() as int);
    assert(rest =~= line + inner + "\n```"@);
    assert(rest.skip(rest.len() - 3) =~= "```"@);
    assert(rest.take(rest.len() - 3) =~= line + inner + line);
    text::lemma_trimmed_around(line, inner, line);
}

/// Read a reply as JSON, tolerating a markdown code fence around it.
pub fn parse_json_text(text: &str) -> (result: Result<Json, ToolError>)
    ensures
        value_view(result) == json_reply(text@),
        forall|before: Seq<char>, opening: Seq<char>, inner: Seq<char>, after: Seq<char>|
            text@ == #[trigger] in_fence(before, opening, inner, after) && text::blank(before)
                && text::blank(after) && opens_fence(opening) && json::parsed_json(
                text::trimmed(inner),
            ) is Some ==> value_view(result) == Ok::<JsonView, Fault>(
                json::parsed_json(text::trimmed(inner))->0,
            ),
{
    let trimmed = text::trim(text);
    let empty = text::chars_of(trimmed.as_str()).len() == 0;
    proof {
        assert forall|before: Seq<char>, opening: Seq<char>, inner: Seq<char>, after: Seq<char>|
            text@ == #[trigger] in_fence(before, opening, inner, after) && text::blank(before)
                && text::blank(after) && opens_fence(opening) implies trimmed@.len() > 0
            && trimmed@[0] == '`' && fenced_text(trimmed@) == Some(text::trimmed(inner)) by {
            lemma_fence_is_opened(before, opening, inner, after);
        }
    }
    if empty {
        return chosen_reading(true, None, None);
    }
    match Json::parse(trimmed.as_str()) {
        Some(value) => chosen_reading(false, Some(value), None),
        None => {
            let inner = match fenced(trimmed.as_str()) {
                Some(inner) => Json::parse(inner.as_str()),
                None => None,
            };
            chosen_reading(false, None, inner)
        },
    }
}

/// A node's output as text: a text as it is, anything else as JSON on one line.
pub open spec fn output_text(value: JsonView) -> Seq<char> {
    match value {
        JsonView::Text(text) => text,
        other => json::compact_json(other),
    }
}

/// Render a node's output as text, to be handed to the next step.
pub fn output_to_text(value: &Json) -> (text: String)
    ensures
        text@ == output_text(value@),
{
    match value {
        Json::Text(text) => text.clone(),
        other => other.compact(),
    }
}

/// What a node makes of a reply.
pub open spec fn answered(reply: Result<Seq<char>, Fault>, output: Option<OutputMode>) -> Result<
    JsonView,
    Fault,
> {
    match reply {
        Err(fault) => Err(fault),
        Ok(text) => if output == Some(OutputMode::Json) {
            json_reply(text)
        } else {
            Ok(JsonView::Text(text))
        },
    }
}

/// Make of a reply what a node asks for.
pub fn read_reply(reply: &Result<String, ToolError>, output: Option<OutputMode>) -> (result: Result<
    Json,
    ToolError,
>)
    ensures
        value_view(result) == answered(reply_view(*reply), output),
{
    match reply {
        Err(error) => Err(error.clone()),
        Ok(text) => match output {
            Some(OutputMode::Json) => parse_json_text(text.as_str()),
            _ => Ok(Json::Text(text.clone())),
        },
    }
}

// ---------------------------------------------------------------------------
// Call sites and the transcript
// ---------------------------------------------------------------------------

/// A place in a flow, as the positions of the steps and branches on the way to
/// it.
pub open spec fn site_view(site: Seq<usize>) -> Seq<int> {
    Seq::new(site.len(), |i: int| site[i] as int)
}

fn same_site(a: &Vec<usize>, b: &Vec<usize>) -> (same: bool)
    ensures
        same == (site_view(a@) == site_view(b@)),
{
    if a.len() != b.len() {
        assert(site_view(a@).len() != site_view(b@).len());
        return false;
    }
    let mut i: usize = 0;
    while i < a.len()
        invariant
            i <= a@.len(),
            a@.len() == b@.len(),
            forall|j: int| 0 <= j < i ==> #[trigger] a@[j] == b@[j],
        decreases a@.len() - i,
    {
        if a[i] != b[i] {
            assert(site_view(a@)[i as int] != site_view(b@)[i as int]);
            return false;
        }
        i += 1;
    }
    assert(site_view(a@) =~= site_view(b@));
    true
}

fn inner_site(site: &Vec<usize>, i: usize) -> (inner: Vec<usize>)
    ensures
        site_view(inner@) == site_view(site@).push(i as int),
{
    let mut inner: Vec<usize> = site.clone();
    inner.push(i);
    assert(site_view(inner@) =~= site_view(site@).push(i as int));
    inner
}

/// A task to hand to an agent.
#[derive(Debug, PartialEq)]
pub struct Call {
    /// The place in the flow that asks for it, and under which its reply is
    /// recorded.
    pub site: Vec<usize>,
    pub agent: String,
    pub task: String,
}

/// The content of a [`Call`].
pub struct CallView {
    pub site: Seq<int>,
    pub agent: Seq<char>,
    pub task: Seq<char>,
}

impl Call {
    pub open spec fn view(self) -> CallView {
        CallView { site: site_view(self.site@), agent: self.agent@, task: self.task@ }
    }
}

/// The content of a list of calls.
pub open spec fn call_views(calls: Seq<Call>) -> Seq<CallView> {
    Seq::new(calls.len(), |i: int| calls[i]@)
}

/// What the first entry for a site says.
pub open spec fn heard(
    entries: Seq<(Vec<usize>, Result<String, ToolError>)>,
    site: Seq<int>,
) -> Option<Result<Seq<char>, Fault>>
    decreases entries.len(),
{
    if entries.len() == 0 {
        None
    } else if site_view(entries[0].0@) == site {
        Some(reply_view(entries[0].1))
    } else {
        heard(entries.drop_first(), site)
    }
}

/// The replies received so far, by call site.
#[derive(Debug)]
pub struct Transcript {
    entries: Vec<(Vec<usize>, Result<String, ToolError>)>,
}

impl Transcript {
    /// The recorded pairs, in the order in which they came in.
    pub closed spec fn pairs(self) -> Seq<(Vec<usize>, Result<String, ToolError>)> {
        self.entries@
    }

    /// The replies by call site.
    pub open spec fn view(self) -> Map<Seq<int>, Result<Seq<char>, Fault>> {
        Map::new(
            |site: Seq<int>| heard(self.pairs(), site) is Some,
            |site: Seq<int>| heard(self.pairs(), site)->0,
        )
    }

    /// Nothing was received yet.
    pub fn new() -> (log: Transcript)
        ensures
            log@ == Map::<Seq<int>, Result<Seq<char>, Fault>>::empty(),
    {
        let log = Transcript { entries: Vec::new() };
        assert(log@ =~= Map::<Seq<int>, Result<Seq<char>, Fault>>::empty());
        log
    }

    /// The reply received for a call site.
    pub fn reply_to(&self, site: &Vec<usize>) -> (reply: Option<&Result<String, ToolError>>)
        ensures
            match reply {
                Some(reply) => self@.contains_key(site_view(site@)) && self@[site_view(site@)]
                    == reply_view(*reply),
                None => !self@.contains_key(site_view(site@)),
            },
    {
        let ghost wanted = site_view(site@);
        let mut i: usize = 0;
        assert(self.pairs().skip(0) =~= self.pairs());
        while i < self.entries.len()
            invariant
                i <= self.entries@.len(),
                wanted == site_view(site@),
                heard(self.pairs(), wanted) == heard(self.pairs().skip(i as int), wanted),
            decreases self.entries@.len() - i,
        {
            assert(self.pairs().skip(i as int)[0] == self.entries@[i as int]);
            assert(self.pairs().skip(i as int).drop_first() =~= self.pairs().skip(i + 1));
            if same_site(&self.entries[i].0, site) {
                return Some(&self.entries[i].1);
            }
            i += 1;
        }
        None
    }

    /// Record the reply to a call. A site has one reply: a second one is
    /// dropped.
    pub fn record(&mut self, site: Vec<usize>, reply: Result<String, ToolError>) -> (fresh: bool)
        ensures
            fresh == !old(self)@.contains_key(site_view(site@)),
            final(self)@ == if fresh {
                old(self)@.insert(site_view(site@), reply_view(reply))
            } else {
                old(self)@
            },
    {
        match self.reply_to(&site) {
            Some(_) => false,
            None => {
                let ghost before = self.pairs();
                let ghost log = self@;
                self.entries.push((site, reply));
                proof {
                    assert forall|other: Seq<int>|
                        #[trigger] heard(self.pairs(), other) == match heard(before, other) {
                            Some(reply) => Some(reply),
                            None => if other == site_view(site@) {
                                Some(reply_view(reply))
                            } else {
                                None
                            },
                        } by {
                        lemma_heard_push(before, (site, reply), other);
                    }
                    assert(self@ =~= log.insert(site_view(site@), reply_view(reply)));
                }
                true
            },
        }
    }
}

proof fn lemma_heard_push(
    entries: Seq<(Vec<usize>, Result<String, ToolError>)>,
    last: (Vec<usize>, Result<String, ToolError>),
    site: Seq<int>,
)
    ensures
        heard(entries.push(last), site) == match heard(entries, site) {
            Some(reply) => Some(reply),
            None => if site_view(last.0@) == site {
                Some(reply_view(last.1))
            } else {
                None
            },
        },
    decreases entries.len(),
{
    reveal_with_fuel(heard, 2);
    if entries.len() > 0 {
        assert(entries.push(last).drop_first() =~= entries.drop_first().push(last));
        lemma_heard_push(entries.drop_first(), last, site);
    }
}

// ---------------------------------------------------------------------------
// What a flow has come to
// ---------------------------------------------------------------------------

/// How far a node has come.
pub enum State {
    /// It ended with an output.
    Done(JsonView),
    /// It failed.
    Failed(Fault),
    /// It needs replies that are still to come.
    Waiting,
}

/// What a node has come to: how far it is, the outputs of the forks that ended
/// so far, by fork id, and the calls it waits for.
pub struct Run {
    pub state: State,
    pub forks: Seq<(Seq<char>, JsonView)>,
    pub calls: Seq<CallView>,
}

/// What the branches of a fork have come to: the outputs of those that ended,
/// the messages of those that failed, how many have done neither, and the calls
/// that they wait for.
pub struct ForkRun {
    pub branches: Seq<(Seq<char>, JsonView)>,
    pub errors: Seq<(Seq<char>, JsonView)>,
    pub open: nat,
    pub calls: Seq<CallView>,
}

/// A value or an error as a state.
pub open spec fn ended(result: Result<JsonView, Fault>) -> State {
    match result {
        Ok(value) => State::Done(value),
        Err(fault) => State::Failed(fault),
    }
}

/// What a node that hands one task to one agent has come to.
pub open spec fn called(
    agent: Seq<char>,
    task: Seq<char>,
    output: Option<OutputMode>,
    site: Seq<int>,
    forks: Seq<(Seq<char>, JsonView)>,
    log: Map<Seq<int>, Result<Seq<char>, Fault>>,
) -> Run {
    if log.contains_key(site) {
        Run { state: ended(answered(log[site], output)), forks, calls: Seq::empty() }
    } else {
        Run { state: State::Waiting, forks, calls: seq![CallView { site, agent, task }] }
    }
}

/// How many branches of a fork run at a time.
pub open spec fn fork_limit(concurrency: Option<usize>) -> nat {
    match concurrency {
        Some(n) => if n == 0 {
            1
        } else {
            n as nat
        },
        None => DEFAULT_CONCURRENCY as nat,
    }
}

/// The output of a fork.
pub open spec fn fork_output(
    branches: Seq<(Seq<char>, JsonView)>,
    errors: Seq<(Seq<char>, JsonView)>,
) -> JsonView {
    JsonView::Object(
        ordered::put(
            ordered::put(Seq::empty(), "branches"@, JsonView::Object(branches)),
            "errors"@,
            JsonView::Object(errors),
        ),
    )
}

/// How many entries an object has under a key.
pub open spec fn member_count(value: JsonView, key: Seq<char>) -> nat {
    match value.member(key) {
        Some(JsonView::Object(entries)) => entries.len(),
        _ => 0,
    }
}

/// Whether a join goes on, given how many branches succeeded and failed.
pub open spec fn satisfied(j: JoinView, successes: nat, failures: nat) -> bool {
    match j.mode {
        JoinMode::All => failures == 0,
        JoinMode::Any => successes > 0,
        JoinMode::Quorum => successes >= match j.quorum {
            Some(n) => n as nat,
            None => 1,
        },
    }
}

/// The name of a join mode in messages.
pub open spec fn mode_title(mode: JoinMode) -> Seq<char> {
    match mode {
        JoinMode::All => "All"@,
        JoinMode::Any => "Any"@,
        JoinMode::Quorum => "Quorum"@,
    }
}

/// What a join makes of a fork's output before it reduces it: the error, where
/// too few branches succeeded and there is nothing to go on with.
pub open spec fn join_fault(j: JoinView, output: JsonView) -> Option<Fault> {
    let successes = member_count(output, "branches"@);
    let failures = member_count(output, "errors"@);
    let lenient = j.on_failure == Some(OnFailure::CollectErrors) && successes > 0;
    if satisfied(j, successes, failures) || lenient {
        None
    } else {
        Some(
            Fault::Execution(
                "join \""@ + j.from + "\" not satisfied (mode="@ + mode_title(j.mode) + ", "@
                    + text::decimal_text(successes) + " succeeded, "@ + text::decimal_text(
                    failures,
                ) + " failed)"@,
            ),
        )
    }
}

/// The error of a join whose fork has not ended.
pub open spec fn missing_fork(from: Seq<char>) -> Fault {
    Fault::Execution(
        "join references fork \""@ + from
            + "\" which has not completed (must run after the fork in the same sequence)"@,
    )
}

/// The task of a reducer: `{previous}` stands for the collected results, which
/// are appended where the task does not mention them.
pub open spec fn reducer_text(task: Seq<char>, collected: Seq<char>) -> Seq<char> {
    if text::occurs(task, "{previous}"@) {
        text::replaced(task, "{previous}"@, collected)
    } else {
        task + "\n\nCollected branch results (JSON):\n```json\n"@ + collected + "\n```"@
    }
}

/// What a join has come to.
pub open spec fn ran_join(
    j: JoinView,
    site: Seq<int>,
    forks: Seq<(Seq<char>, JsonView)>,
    log: Map<Seq<int>, Result<Seq<char>, Fault>>,
) -> Run {
    match ordered::lookup(forks, j.from) {
        None => Run { state: State::Failed(missing_fork(j.from)), forks, calls: Seq::empty() },
        Some(output) => match join_fault(j, output) {
            Some(fault) => Run { state: State::Failed(fault), forks, calls: Seq::empty() },
            None => match j.reducer {
                Some(ReducerView::Agent(r)) => called(
                    r.agent,
                    reducer_text(r.task, json::pretty_json(output)),
                    r.output,
                    site,
                    forks,
                    log,
                ),
                _ => Run { state: State::Done(output), forks, calls: Seq::empty() },
            },
        },
    }
}

/// What a node has come to: `site` is its place, `previous` the output of the
/// step before it, `forks` the forks that ended before it.
pub open spec fn ran(
    f: FlowView,
    site: Seq<int>,
    previous: Option<Seq<char>>,
    forks: Seq<(Seq<char>, JsonView)>,
    log: Map<Seq<int>, Result<Seq<char>, Fault>>,
) -> Run
    decreases f, 0nat,
{
    match f {
        FlowView::Spawn(s) => called(
            s.agent,
            filled(s.task, previous),
            s.output,
            site,
            forks,
            log,
        ),
        FlowView::Sequence(s) => ran_steps(s.steps, site, previous, forks, log, s.steps.len()),
        FlowView::Fork(k) => {
            let run = ran_branches(
                k.branches,
                site,
                previous,
                fork_limit(k.concurrency),
                log,
                k.branches.len(),
            );
            if run.open == 0 {
                let output = fork_output(run.branches, run.errors);
                Run {
                    state: State::Done(output),
                    forks: ordered::put(forks, k.id, output),
                    calls: run.calls,
                }
            } else {
                Run { state: State::Waiting, forks, calls: run.calls }
            }
        },
        FlowView::Join(j) => ran_join(j, site, forks, log),
        FlowView::Loop(_) => Run {
            state: State::Failed(
                Fault::Execution("loop nodes are not supported in Phase 1 of the orchestrator"@),
            ),
            forks,
            calls: Seq::empty(),
        },
    }
}

/// What the first `n` steps of a sequence have come to. Each step gets the
/// output of the step before it; nothing is run behind a step that failed or
/// waits.
pub open spec fn ran_steps(
    steps: Seq<FlowView>,
    site: Seq<int>,
    previous: Option<Seq<char>>,
    forks: Seq<(Seq<char>, JsonView)>,
    log: Map<Seq<int>, Result<Seq<char>, Fault>>,
    n: nat,
) -> Run
    decreases steps, n,
{
    if n == 0 || n > steps.len() {
        Run { state: State::Done(JsonView::Null), forks, calls: Seq::empty() }
    } else {
        let before = ran_steps(steps, site, previous, forks, log, (n - 1) as nat);
        match before.state {
            State::Done(output) => ran(
                steps[n - 1],
                site.push(n - 1),
                if n == 1 {
                    previous
                } else {
                    Some(output_text(output))
                },
                before.forks,
                log,
            ),
            _ => before,
        }
    }
}

/// What the first `n` branches of a fork have come to. A branch is started once
/// fewer than `limit` of the branches before it are open; each branch starts
/// with no forks of its own.
pub open spec fn ran_branches(
    branches: Seq<(Seq<char>, FlowView)>,
    site: Seq<int>,
    previous: Option<Seq<char>>,
    limit: nat,
    log: Map<Seq<int>, Result<Seq<char>, Fault>>,
    n: nat,
) -> ForkRun
    decreases branches, n,
{
    if n == 0 || n > branches.len() {
        ForkRun { branches: Seq::empty(), errors: Seq::empty(), open: 0, calls: Seq::empty() }
    } else {
        proof {
            assert(decreases_to!(branches => branches[n - 1]));
            assert(decreases_to!(branches[n - 1] => branches[n - 1].1));
        }
        let before = ran_branches(branches, site, previous, limit, log, (n - 1) as nat);
        let (key, branch) = branches[n - 1];
        if before.open < limit {
            let run = ran(branch, site.push(n - 1), previous, Seq::empty(), log);
            let calls = before.calls + run.calls;
            match run.state {
                State::Done(value) => ForkRun {
                    branches: ordered::put(before.branches, key, value),
                    calls,
                    ..before
                },
                State::Failed(fault) => ForkRun {
                    errors: ordered::put(before.errors, key, JsonView::Text(fault.message())),
                    calls,
                    ..before
                },
                State::Waiting => ForkRun { open: before.open + 1, calls, ..before },
            }
        } else {
            ForkRun { open: before.open + 1, ..before }
        }
    }
}

// ---------------------------------------------------------------------------
// Executable walk
// ---------------------------------------------------------------------------

/// How far a node has come.
#[derive(Debug, PartialEq)]
pub enum Progress {
    /// It ended with an output.
    Done(Json),
    /// It failed.
    Failed(ToolError),
    /// It needs replies that are still to come.
    Waiting,
}

impl Progress {
    pub open spec fn view(self) -> State {
        match self {
            Progress::Done(value) => State::Done(value@),
            Progress::Failed(error) => State::Failed(error@),
            Progress::Waiting => State::Waiting,
        }
    }
}

fn progress(result: Result<Json, ToolError>) -> (progress: Progress)
    ensures
        progress@ == ended(value_view(result)),
{
    match result {
        Ok(value) => Progress::Done(value),
        Err(error) => Progress::Failed(error),
    }
}

/// Hand one task to one agent, or take up its reply.
fn run_call(
    agent: &str,
    task: String,
    output: Option<OutputMode>,
    site: &Vec<usize>,
    log: &Transcript,
    calls: &mut Vec<Call>,
) -> (state: Progress)
    ensures
        ({
            let run = called(agent@, task@, output, site_view(site@), Seq::empty(), log@);
            &&& state@ == run.state
            &&& call_views(final(calls)@) == call_views(old(calls)@) + run.calls
        }),
{
    let ghost before = call_views(calls@);
    match log.reply_to(site) {
        Some(reply) => {
            assert(before + Seq::<CallView>::empty() =~= before);
            progress(read_reply(reply, output))
        },
        None => {
            let call = Call { site: site.clone(), agent: agent.to_owned(), task };
            calls.push(call);
            proof {
                assert(call.site@ =~= site@);
                assert(call_views(calls@) =~= before + seq![call@]);
            }
            Progress::Waiting
        },
    }
}

/// Run a spawn node.
fn run_spawn(
    spec: &SpawnSpec,
    site: &Vec<usize>,
    previous: Option<&str>,
    log: &Transcript,
    calls: &mut Vec<Call>,
) -> (state: Progress)
    ensures
        ({
            let run = ran(
                FlowView::Spawn(spec@),
                site_view(site@),
                str_option(previous),
                Seq::empty(),
                log@,
            );
            &&& state@ == run.state
            &&& call_views(final(calls)@) == call_views(old(calls)@) + run.calls
        }),
{
    let task = apply_previous(spec.task.as_str(), previous);
    run_call(spec.agent.as_str(), task, spec.output, site, log, calls)
}

/// The task of a reducer over collected results.
pub fn reducer_task(task: &str, collected: &str) -> (result: String)
    ensures
        result@ == reducer_text(task@, collected@),
{
    proof {
        reveal_strlit("{previous}");
    }
    if text::contains(task, "{previous}") {
        text::replace(task, "{previous}", collected)
    } else {
        let mut result = text::join3(
            task,
            "\n\nCollected branch results (JSON):\n```json\n",
            collected,
        );
        result.append("\n```");
        result
    }
}

/// Route collected fork results through a reducer agent.
fn run_reducer(
    reducer: &AgentReducer,
    collected: &Json,
    site: &Vec<usize>,
    log: &Transcript,
    calls: &mut Vec<Call>,
) -> (state: Progress)
    ensures
        ({
            let run = called(
                reducer@.agent,
                reducer_text(reducer@.task, json::pretty_json(collected@)),
                reducer@.output,
                site_view(site@),
                Seq::empty(),
                log@,
            );
            &&& state@ == run.state
            &&& call_views(final(calls)@) == call_views(old(calls)@) + run.calls
        }),
{
    let collected_text = collected.pretty();
    let task = reducer_task(reducer.task.as_str(), collected_text.as_str());
    run_call(reducer.agent.as_str(), task, reducer.output, site, log, calls)
}

fn count_members(value: &Json, key: &str) -> (n: usize)
    ensures
        n == member_count(value@, key@),
{
    match value.get(key) {
        Some(Json::Object(map)) => {
            proof {
                Json::Object(*map).lemma_view();
            }
            map.len()
        },
        _ => 0,
    }
}

/// Whether a join may go on with a fork's output, and if not, why.
pub fn check_join(spec: &JoinSpec, fork_output: &Json) -> (result: Result<(), ToolError>)
    ensures
        match result {
            Ok(_) => join_fault(spec@, fork_output@) is None,
            Err(error) => join_fault(spec@, fork_output@) == Some(error@),
        },
{
    let successes: usize = count_members(fork_output, "branches");
    let failures: usize = count_members(fork_output, "errors");
    let satisfied: bool = match spec.mode {
        JoinMode::All => failures == 0,
        JoinMode::Any => successes > 0,
        JoinMode::Quorum => successes >= match spec.quorum {
            Some(n) => n,
            None => 1,
        },
    };
    if satisfied {
        return Ok(());
    }
    let lenient: bool = match spec.on_failure {
        Some(OnFailure::CollectErrors) => successes > 0,
        _ => false,
    };
    if lenient {
        return Ok(());
    }
    let title: &str = match spec.mode {
        JoinMode::All => "All",
        JoinMode::Any => "Any",
        JoinMode::Quorum => "Quorum",
    };
    let mut message = text::join3("join \"", spec.from.as_str(), "\" not satisfied (mode=");
    message.append(title);
    message.append(", ");
    message.append(text::decimal(successes as u64).as_str());
    message.append(" succeeded, ");
    message.append(text::decimal(failures as u64).as_str());
    message.append(" failed)");
    Err(ToolError::Execution(message))
}

/// Run a join over the results of a fork that ended before it.
fn run_join(
    spec: &JoinSpec,
    site: &Vec<usize>,
    forks: &SortedMap<Json>,
    log: &Transcript,
    calls: &mut Vec<Call>,
) -> (state: Progress)
    ensures
        ({
            let run = ran_join(spec@, site_view(site@), json::fields(*forks), log@);
            &&& state@ == run.state
            &&& call_views(final(calls)@) == call_views(old(calls)@) + run.calls
        }),
{
    assert(call_views(calls@) + Seq::<CallView>::empty() =~= call_views(calls@));
    let output = match json::field(forks, spec.from.as_str()) {
        Some(output) => output,
        None => {
            return Progress::Failed(
                ToolError::Execution(
                    text::join3(
                        "join references fork \"",
                        spec.from.as_str(),
                        "\" which has not completed (must run after the fork in the same sequence)",
                    ),
                ),
            );
        },
    };
    match check_join(spec, output) {
        Ok(_) => {},
        Err(error) => return Progress::Failed(error),
    }
    match &spec.reducer {
        Some(JoinReducer::Agent(reducer)) => run_reducer(reducer, output, site, log, calls),
        _ => Progress::Done(output.clone()),
    }
}

/// The output of a fork.
fn collected(branches: SortedMap<Json>, errors: SortedMap<Json>) -> (output: Json)
    ensures
        output@ == fork_output(json::fields(branches), json::fields(errors)),
{
    let mut map: SortedMap<Json> = SortedMap::new();
    assert(json::fields(map) =~= Seq::empty());
    let branches = Json::Object(branches);
    let errors = Json::Object(errors);
    proof {
        branches.lemma_view();
        errors.lemma_view();
    }
    json::set_field(&mut map, "branches".to_owned(), branches);
    json::set_field(&mut map, "errors".to_owned(), errors);
    let output = Json::Object(map);
    proof {
        output.lemma_view();
    }
    output
}

/// Run a node.
fn run_flow(
    flow: &FlowSpec,
    site: &Vec<usize>,
    previous: Option<&str>,
    forks: &mut SortedMap<Json>,
    log: &Transcript,
    calls: &mut Vec<Call>,
) -> (state: Progress)
    ensures
        ({
            let run = ran(
                flow@,
                site_view(site@),
                str_option(previous),
                json::fields(*old(forks)),
                log@,
            );
            &&& state@ == run.state
            &&& json::fields(*final(forks)) == run.forks
            &&& call_views(final(calls)@) == call_views(old(calls)@) + run.calls
        }),
    decreases flow@, 0nat,
{
    proof {
        flow.lemma_view();
    }
    match flow {
        FlowSpec::Spawn(s) => run_spawn(s, site, previous, log, calls),
        FlowSpec::Sequence(s) => {
            proof {
                assert(decreases_to!(flow@ => flow@->Sequence_0));
                assert(decreases_to!(flow@->Sequence_0 => flow@->Sequence_0.steps));
            }
            run_sequence(s, site, previous, forks, log, calls)
        },
        FlowSpec::Fork(f) => {
            proof {
                assert(decreases_to!(flow@ => flow@->Fork_0));
                assert(decreases_to!(flow@->Fork_0 => flow@->Fork_0.branches));
            }
            run_fork(f, site, previous, forks, log, calls)
        },
        FlowSpec::Join(j) => run_join(j, site, forks, log, calls),
        FlowSpec::Loop(_) => {
            assert(call_views(calls@) + Seq::<CallView>::empty() =~= call_views(calls@));
            Progress::Failed(
                ToolError::Execution(
                    "loop nodes are not supported in Phase 1 of the orchestrator".to_owned(),
                ),
            )
        },
    }
}

/// Run a sequence, handing each step's output to the next.
fn run_sequence(
    spec: &SequenceSpec,
    site: &Vec<usize>,
    previous: Option<&str>,
    forks: &mut SortedMap<Json>,
    log: &Transcript,
    calls: &mut Vec<Call>,
) -> (state: Progress)
    ensures
        ({
            let run = ran_steps(
                flow::flow_views(spec.steps@),
                site_view(site@),
                str_option(previous),
                json::fields(*old(forks)),
                log@,
                spec.steps@.len(),
            );
            &&& state@ == run.state
            &&& json::fields(*final(forks)) == run.forks
            &&& call_views(final(calls)@) == call_views(old(calls)@) + run.calls
        }),
    decreases flow::flow_views(spec.steps@), spec.steps@.len() + 1,
{
    let ghost all = flow::flow_views(spec.steps@);
    let ghost at = site_view(site@);
    let ghost first = str_option(previous);
    let ghost known = json::fields(*forks);
    let ghost start = call_views(calls@);
    assert(start + Seq::<CallView>::empty() =~= start);
    let mut prev_text: Option<String> = match previous {
        Some(previous) => Some(previous.to_owned()),
        None => None,
    };
    let mut last = Json::Null;
    let mut i: usize = 0;
    while i < spec.steps.len()
        invariant
            all == flow::flow_views(spec.steps@),
            at == site_view(site@),
            first == str_option(previous),
            known == json::fields(*old(forks)),
            start == call_views(old(calls)@),
            i <= spec.steps@.len(),
            call_views(calls@) == start,
            ({
                let run = ran_steps(all, at, first, known, log@, i as nat);
                &&& run.state == State::Done(last@)
                &&& run.forks == json::fields(*forks)
            }),
            flow::text_option(prev_text) == if i == 0 {
                first
            } else {
                Some(output_text(last@))
            },
        decreases spec.steps@.len() - i,
    {
        let inner = inner_site(site, i);
        proof {
            assert(decreases_to!(all => all[i as int]));
        }
        let state = run_flow(
            &spec.steps[i],
            &inner,
            flow::optional_str(&prev_text),
            forks,
            log,
            calls,
        );
        proof {
            let run = ran_steps(all, at, first, known, log@, (i + 1) as nat);
            assert(state@ == run.state);
            assert(json::fields(*forks) == run.forks);
            assert(call_views(calls@) == start + run.calls);
            if !(state is Done) {
                lemma_stuck(all, at, first, known, log@, (i + 1) as nat, all.len());
            } else {
                lemma_steps_calls(all, at, first, known, log@, (i + 1) as nat);
                assert(start + Seq::<CallView>::empty() =~= start);
            }
        }
        match state {
            Progress::Done(output) => {
                prev_text = Some(output_to_text(&output));
                last = output;
            },
            other => return other,
        }
        i += 1;
    }
    proof {
        lemma_steps_calls(all, at, first, known, log@, i as nat);
        let run = ran_steps(all, at, first, known, log@, i as nat);
        assert(start + run.calls =~= start);
    }
    Progress::Done(last)
}

/// Run a fork: start branches up to the cap, collect those that ended into
/// `{branches, errors}`, and record the result once all have ended.
fn run_fork(
    spec: &ForkSpec,
    site: &Vec<usize>,
    previous: Option<&str>,
    forks: &mut SortedMap<Json>,
    log: &Transcript,
    calls: &mut Vec<Call>,
) -> (state: Progress)
    ensures
        ({
            let run = ran_branches(
                flow::branch_views(spec.branches),
                site_view(site@),
                str_option(previous),
                fork_limit(spec.concurrency),
                log@,
                spec.branches@.len(),
            );
            let output = fork_output(run.branches, run.errors);
            &&& state@ == if run.open == 0 {
                State::Done(output)
            } else {
                State::Waiting
            }
            &&& json::fields(*final(forks)) == if run.open == 0 {
                ordered::put(json::fields(*old(forks)), spec.id@, output)
            } else {
                json::fields(*old(forks))
            }
            &&& call_views(final(calls)@) == call_views(old(calls)@) + run.calls
        }),
    decreases flow::branch_views(spec.branches), spec.branches@.len() + 1,
{
    let ghost all = flow::branch_views(spec.branches);
    let ghost at = site_view(site@);
    let ghost first = str_option(previous);
    let ghost start = call_views(calls@);
    assert(start + Seq::<CallView>::empty() =~= start);
    let limit: usize = match spec.concurrency {
        Some(n) => if n == 0 {
            1
        } else {
            n
        },
        None => DEFAULT_CONCURRENCY,
    };
    let mut branches: SortedMap<Json> = SortedMap::new();
    let mut errors: SortedMap<Json> = SortedMap::new();
    assert(json::fields(branches) =~= Seq::empty());
    assert(json::fields(errors) =~= Seq::empty());
    let mut open: usize = 0;
    let mut i: usize = 0;
    while i < spec.branches.len()
        invariant
            all == flow::branch_views(spec.branches),
            at == site_view(site@),
            first == str_option(previous),
            start == call_views(old(calls)@),
            limit == fork_limit(spec.concurrency),
            i <= spec.branches@.len(),
            open <= i,
            ({
                let run = ran_branches(all, at, first, limit as nat, log@, i as nat);
                &&& run.branches == json::fields(branches)
                &&& run.errors == json::fields(errors)
                &&& run.open == open
                &&& call_views(calls@) == start + run.calls
            }),
        decreases spec.branches@.len() - i,
    {
        let ghost before = ran_branches(all, at, first, limit as nat, log@, i as nat);
        if open < limit {
            proof {
                assert(decreases_to!(all => all[i as int]));
                assert(decreases_to!(all[i as int] => all[i as int].1));
            }
            let inner = inner_site(site, i);
            let key = spec.branches.key_at(i);
            let mut own: SortedMap<Json> = SortedMap::new();
            assert(json::fields(own) =~= Seq::empty());
            let state = run_flow(
                spec.branches.value_at(i),
                &inner,
                previous,
                &mut own,
                log,
                calls,
            );
            proof {
                let run = ran(all[i as int].1, at.push(i as int), first, Seq::empty(), log@);
                assert(start + before.calls + run.calls =~= start + (before.calls + run.calls));
            }
            match state {
                Progress::Done(value) => {
                    json::set_field(&mut branches, key.clone(), value);
                },
                Progress::Failed(error) => {
                    json::set_field(
                        &mut errors,
                        key.clone(),
                        Json::Text(error.message().clone()),
                    );
                },
                Progress::Waiting => {
                    open += 1;
                },
            }
        } else {
            open += 1;
        }
        i += 1;
    }
    if open == 0 {
        let output = collected(branches, errors);
        json::set_field(forks, spec.id.clone(), output.clone());
        Progress::Done(output)
    } else {
        Progress::Waiting
    }
}

/// What to do next with a flow.
#[derive(Debug, PartialEq)]
pub enum Step {
    /// Nothing: the flow has come to its end.
    Finished(Result<Json, ToolError>),
    /// Make the calls that were not made yet, and record their replies.
    Pending(Vec<Call>),
}

/// The run of a whole flow.
pub open spec fn executed(
    f: FlowView,
    log: Map<Seq<int>, Result<Seq<char>, Fault>>,
) -> Run {
    ran(f, Seq::empty(), None, Seq::empty(), log)
}

/// Carry a whole flow as far as the replies in the transcript go: its outcome,
/// or the calls that it waits for.
pub fn execute_flow(flow: &FlowSpec, log: &Transcript) -> (step: Step)
    ensures
        match step {
            Step::Finished(Ok(value)) => executed(flow@, log@).state == State::Done(value@),
            Step::Finished(Err(error)) => executed(flow@, log@).state == State::Failed(error@),
            Step::Pending(calls) => executed(flow@, log@).state == State::Waiting && call_views(
                calls@,
            ) == executed(flow@, log@).calls,
        },
{
    let site: Vec<usize> = Vec::new();
    let mut forks: SortedMap<Json> = SortedMap::new();
    let mut calls: Vec<Call> = Vec::new();
    assert(site_view(site@) =~= Seq::empty());
    assert(json::fields(forks) =~= Seq::empty());
    assert(call_views(calls@) =~= Seq::empty());
    match run_flow(flow, &site, None, &mut forks, log, &mut calls) {
        Progress::Done(value) => Step::Finished(Ok(value)),
        Progress::Failed(error) => Step::Finished(Err(error)),
        Progress::Waiting => {
            proof {
                let run = executed(flow@, log@);
                assert(Seq::<CallView>::empty() + run.calls =~= run.calls);
            }
            Step::Pending(calls)
        },
    }
}

// ---------------------------------------------------------------------------
// Laws
// ---------------------------------------------------------------------------

/// Nothing is run behind a step that failed or waits.
proof fn lemma_stuck(
    steps: Seq<FlowView>,
    site: Seq<int>,
    previous: Option<Seq<char>>,
    forks: Seq<(Seq<char>, JsonView)>,
    log: Map<Seq<int>, Result<Seq<char>, Fault>>,
    i: nat,
    n: nat,
)
    requires
        i <= n <= steps.len(),
        !(ran_steps(steps, site, previous, forks, log, i).state is Done),
    ensures
        ran_steps(steps, site, previous, forks, log, n) == ran_steps(
            steps,
            site,
            previous,
            forks,
            log,
            i,
        ),
    decreases n,
{
    if n > i {
        lemma_stuck(steps, site, previous, forks, log, i, (n - 1) as nat);
    }
}

/// A node that has ended waits for no call.
pub proof fn lemma_ended_nodes_wait_for_nothing(
    f: FlowView,
    site: Seq<int>,
    previous: Option<Seq<char>>,
    forks: Seq<(Seq<char>, JsonView)>,
    log: Map<Seq<int>, Result<Seq<char>, Fault>>,
)
    ensures
        !(ran(f, site, previous, forks, log).state is Waiting) ==> ran(
            f,
            site,
            previous,
            forks,
            log,
        ).calls.len() == 0,
    decreases f, 0nat,
{
    match f {
        FlowView::Sequence(s) => {
            lemma_steps_calls(s.steps, site, previous, forks, log, s.steps.len());
        },
        FlowView::Fork(k) => {
            lemma_branches_calls(
                k.branches,
                site,
                previous,
                fork_limit(k.concurrency),
                log,
                k.branches.len(),
            );
        },
        _ => {},
    }
}

proof fn lemma_steps_calls(
    steps: Seq<FlowView>,
    site: Seq<int>,
    previous: Option<Seq<char>>,
    forks: Seq<(Seq<char>, JsonView)>,
    log: Map<Seq<int>, Result<Seq<char>, Fault>>,
    n: nat,
)
    requires
        n <= steps.len(),
    ensures
        !(ran_steps(steps, site, previous, forks, log, n).state is Waiting) ==> ran_steps(
            steps,
            site,
            previous,
            forks,
            log,
            n,
        ).calls.len() == 0,
    decreases steps, n,
{
    if n > 0 {
        let before = ran_steps(steps, site, previous, forks, log, (n - 1) as nat);
        lemma_steps_calls(steps, site, previous, forks, log, (n - 1) as nat);
        match before.state {
            State::Done(output) => {
                lemma_ended_nodes_wait_for_nothing(
                    steps[n - 1],
                    site.push(n - 1),
                    if n == 1 {
                        previous
                    } else {
                        Some(output_text(output))
                    },
                    before.forks,
                    log,
                );
            },
            _ => {},
        }
    }
}

proof fn lemma_branches_calls(
    branches: Seq<(Seq<char>, FlowView)>,
    site: Seq<int>,
    previous: Option<Seq<char>>,
    limit: nat,
    log: Map<Seq<int>, Result<Seq<char>, Fault>>,
    n: nat,
)
    requires
        n <= branches.len(),
    ensures
        ran_branches(branches, site, previous, limit, log, n).open == 0 ==> ran_branches(
            branches,
            site,
            previous,
            limit,
            log,
            n,
        ).calls.len() == 0,
    decreases branches, n,
{
    if n > 0 {
        assert(decreases_to!(branches => branches[n - 1]));
        assert(decreases_to!(branches[n - 1] => branches[n - 1].1));
        lemma_branches_calls(branches, site, previous, limit, log, (n - 1) as nat);
        lemma_ended_nodes_wait_for_nothing(
            branches[n - 1].1,
            site.push(n - 1),
            previous,
            Seq::empty(),
            log,
        );
    }
}

} // verus!
