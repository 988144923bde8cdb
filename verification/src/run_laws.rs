//! What a run does at each node, said of its inputs and its outcome.

use vstd::prelude::*;
use vstd::string::*;
use crate::executor;
use crate::executor::{CallView, Fault, Run, State};
use crate::flow::{
    AgentReducerView, FlowView, ForkView, JoinMode, JoinView, LoopView, OnFailure, OutputMode,
    ReducerView, SequenceView, SpawnView,
};
use crate::guarantees;
use crate::json;
use crate::json::JsonView;
use crate::ordered;
use crate::text;

verus! {

broadcast use vstd::string::group_string_axioms;

// ---------------------------------------------------------------------------
// Whole flows
// ---------------------------------------------------------------------------

/// A flow starts at its root, with no output before it and no forks behind it.
pub proof fn lemma_flows_start_with_nothing(
    f: FlowView,
    log: Map<Seq<int>, Result<Seq<char>, Fault>>,
)
    ensures
        executor::executed(f, log) == executor::ran(f, Seq::empty(), None, Seq::empty(), log),
{
}

/// A loop is refused, whatever it holds.
pub proof fn lemma_loops_are_refused(
    l: LoopView,
    site: Seq<int>,
    previous: Option<Seq<char>>,
    forks: Seq<(Seq<char>, JsonView)>,
    log: Map<Seq<int>, Result<Seq<char>, Fault>>,
)
    ensures
        executor::ran(FlowView::Loop(l), site, previous, forks, log) == (Run {
            state: State::Failed(
                Fault::Execution("loop nodes are not supported in Phase 1 of the orchestrator"@),
            ),
            forks,
            calls: Seq::empty(),
        }),
{
}

// ---------------------------------------------------------------------------
// Spawns
// ---------------------------------------------------------------------------

/// A spawn that was not answered asks for one call: of its own agent, from its own
/// place. Without an output before it, the task is its own. Where there is one, the
/// task is its own with the first `{previous}` replaced by that output, and so on
/// behind it; and it is unchanged where there is no `{previous}`.
pub proof fn lemma_spawns_ask_for_their_task(
    s: SpawnView,
    site: Seq<int>,
    forks: Seq<(Seq<char>, JsonView)>,
    log: Map<Seq<int>, Result<Seq<char>, Fault>>,
    p: Seq<char>,
    before: Seq<char>,
    after: Seq<char>,
)
    requires
        !log.contains_key(site),
    ensures
        ({
            let bare = executor::ran(FlowView::Spawn(s), site, None, forks, log);
            let run = executor::ran(FlowView::Spawn(s), site, Some(p), forks, log);
            &&& bare.state is Waiting
            &&& bare.forks == forks
            &&& bare.calls == seq![CallView { site, agent: s.agent, task: s.task }]
            &&& run.state is Waiting
            &&& run.forks == forks
            &&& run.calls.len() == 1
            &&& run.calls[0].site == site
            &&& run.calls[0].agent == s.agent
            &&& (forall|i: int|
                0 <= i && i + 10 <= s.task.len() ==> #[trigger] s.task.subrange(i, i + 10)
                    != "{previous}"@) ==> run.calls[0].task == s.task
            &&& s.task == before + "{previous}"@ + after && (forall|i: int|
                0 <= i < before.len() ==> #[trigger] s.task.subrange(i, i + 10) != "{previous}"@)
                ==> run.calls[0].task == before + p + text::replaced(after, "{previous}"@, p)
        }),
{
    reveal_strlit("{previous}");
    let run = executor::ran(FlowView::Spawn(s), site, Some(p), forks, log);
    if forall|i: int|
        0 <= i && i + 10 <= s.task.len() ==> #[trigger] s.task.subrange(i, i + 10)
            != "{previous}"@ {
        assert(!text::occurs(s.task, "{previous}"@)) by {
            if text::occurs(s.task, "{previous}"@) {
                let i = choose|i: int| text::occurs_at(s.task, "{previous}"@, i);
                assert(s.task.subrange(i, i + 10) == "{previous}"@);
            }
        }
        text::lemma_replace_absent(s.task, "{previous}"@, p);
    }
    if s.task == before + "{previous}"@ + after && (forall|i: int|
        0 <= i < before.len() ==> #[trigger] s.task.subrange(i, i + 10) != "{previous}"@) {
        assert forall|i: int| 0 <= i < before.len() implies #[trigger] s.task.subrange(
            i,
            i + "{previous}"@.len(),
        ) != "{previous}"@ by {
            assert(s.task.subrange(i, i + 10) != "{previous}"@);
        }
        text::lemma_replace_first(before, "{previous}"@, after, p);
    }
}

/// A spawn that was answered has ended: with the error, where the agent failed; with
/// the reply itself, where JSON is not asked for; and with what is read from the reply
/// where it is.
pub proof fn lemma_spawns_end_with_their_reply(
    s: SpawnView,
    site: Seq<int>,
    previous: Option<Seq<char>>,
    forks: Seq<(Seq<char>, JsonView)>,
    log: Map<Seq<int>, Result<Seq<char>, Fault>>,
)
    requires
        log.contains_key(site),
    ensures
        ({
            let run = executor::ran(FlowView::Spawn(s), site, previous, forks, log);
            &&& run.forks == forks
            &&& run.calls.len() == 0
            &&& log[site] matches Err(fault) ==> run.state == State::Failed(fault)
            &&& log[site] matches Ok(reply) ==> {
                &&& s.output != Some(OutputMode::Json) ==> run.state == State::Done(
                    JsonView::Text(reply),
                )
                &&& s.output == Some(OutputMode::Json) ==> match executor::json_reply(reply) {
                    Ok(value) => run.state == State::Done(value),
                    Err(fault) => run.state == State::Failed(fault),
                }
            }
        }),
{
}

/// A reply that should be JSON: a blank one is an error; one that is JSON between white
/// space is its value; one that is not, and does not begin with a code fence, is an
/// error.
pub proof fn lemma_json_replies(before: Seq<char>, reply: Seq<char>, after: Seq<char>)
    requires
        text::blank(before),
        text::blank(after),
    ensures
        executor::json_reply(before) == Err::<JsonView, Fault>(
            Fault::Execution("expected JSON output but agent returned empty text"@),
        ),
        reply.len() > 0 && !text::white_space(reply[0]) && !text::white_space(reply.last()) ==> {
            let read = executor::json_reply(before + reply + after);
            &&& json::parsed_json(reply) matches Some(value) ==> read == Ok::<JsonView, Fault>(
                value,
            )
            &&& json::parsed_json(reply) is None && (reply.len() < 3 || reply.take(3) != "```"@)
                ==> read == Err::<JsonView, Fault>(
                Fault::Execution("expected valid JSON output from delegated agent"@),
            )
            &&& json::parsed_json(reply) is None && (reply.len() < 6 || reply.skip(
                reply.len() - 3,
            ) != "```"@) ==> read == Err::<JsonView, Fault>(
                Fault::Execution("expected valid JSON output from delegated agent"@),
            )
        },
{
    reveal_strlit("```");
    reveal_strlit("```json");
    text::lemma_blank_trims_to_nothing(before);
    text::lemma_trimmed_around(before, reply, after);
    if reply.len() > 0 && !text::white_space(reply[0]) && !text::white_space(reply.last()) {
        assert(text::trimmed(reply) == reply);
        if reply.len() >= 7 && reply.take(7) == "```json"@ {
            assert(reply.take(3) =~= reply.take(7).take(3));
            assert("```json"@.take(3) =~= "```"@);
        }
        let fence = executor::fenced_text(reply);
        if reply.len() < 6 || reply.skip(reply.len() - 3) != "```"@ {
            if reply.len() >= 3 && reply.take(3) == "```"@ {
                let rest = reply.skip(3);
                if rest.len() >= 3 {
                    assert(rest.skip(rest.len() - 3) =~= reply.skip(reply.len() - 3));
                }
                if reply.len() >= 7 {
                    let rest = reply.skip(7);
                    if rest.len() >= 3 {
                        assert(rest.skip(rest.len() - 3) =~= reply.skip(reply.len() - 3));
                    }
                }
            }
            assert(fence is None);
        }
    }
}

/// A reply in a code fence that is no JSON itself is what stands in the fence, read as
/// JSON, and an error where that is none.
pub proof fn lemma_fenced_replies(opening: Seq<char>, inner: Seq<char>)
    requires
        opening == "```json"@ || (opening == "```"@ && !(inner.len() >= 4 && inner.take(4)
            == "json"@)),
        json::parsed_json(opening + inner + "```"@) is None,
    ensures
        executor::json_reply(opening + inner + "```"@) == match json::parsed_json(
            text::trimmed(inner),
        ) {
            Some(value) => Ok::<JsonView, Fault>(value),
            None => Err(Fault::Execution("expected valid JSON output from delegated agent"@)),
        },
{
    reveal_strlit("```");
    reveal_strlit("```json");
    reveal_strlit("json");
    let whole = opening + inner + "```"@;
    assert(!text::white_space('`'));
    assert(whole[0] == '`' && whole.last() == '`');
    assert(text::trimmed(whole) == whole);
    assert(whole.take(opening.len() as int) =~= opening);
    let rest = whole.skip(opening.len() as int);
    assert(rest =~= inner + "```"@);
    assert(rest.skip(rest.len() - 3) =~= "```"@);
    assert(rest.take(rest.len() - 3) =~= inner);
    if opening == "```"@ && text::starts_with(whole, "```json"@) {
        let head = whole.take(7);
        assert(head == "```json"@);
        assert(head[3] == 'j' && head[4] == 's' && head[5] == 'o' && head[6] == 'n');
        assert(whole[3] == 'j' && whole[4] == 's' && whole[5] == 'o' && whole[6] == 'n');
        if inner.len() >= 4 {
            assert(inner.take(4) =~= "json"@);
        } else {
            assert(whole[3 + inner.len() as int] == '`');
        }
        assert(false);
    }
}

// ---------------------------------------------------------------------------
// Sequences
// ---------------------------------------------------------------------------

/// The text that a step hands to the next: a text as it is, anything else rendered on
/// one line.
pub open spec fn handed_on(output: JsonView) -> Seq<char> {
    match output {
        JsonView::Text(text) => text,
        other => json::compact_json(other),
    }
}

/// A sequence without steps ends with `null`. A sequence with one more step comes to
/// what it came to without it, unless that has ended well: the step is run then, with
/// the output of the step before it, and with the forks that ended before it.
pub proof fn lemma_sequences_go_step_by_step(
    s: SequenceView,
    step: FlowView,
    site: Seq<int>,
    previous: Option<Seq<char>>,
    forks: Seq<(Seq<char>, JsonView)>,
    log: Map<Seq<int>, Result<Seq<char>, Fault>>,
)
    ensures
        ({
            let run = executor::ran(FlowView::Sequence(s), site, previous, forks, log);
            let longer = FlowView::Sequence(SequenceView { steps: s.steps.push(step), ..s });
            let next = executor::ran(longer, site, previous, forks, log);
            &&& s.steps.len() == 0 ==> run == (Run {
                state: State::Done(JsonView::Null),
                forks,
                calls: Seq::empty(),
            })
            &&& next == match run.state {
                State::Done(output) => executor::ran(
                    step,
                    site.push(s.steps.len() as int),
                    if s.steps.len() == 0 {
                        previous
                    } else {
                        Some(handed_on(output))
                    },
                    run.forks,
                    log,
                ),
                _ => run,
            }
        }),
{
    let steps = s.steps.push(step);
    lemma_steps_prefix(s.steps, steps, site, previous, forks, log, s.steps.len());
    let next = executor::ran_steps(steps, site, previous, forks, log, steps.len());
    let before = executor::ran_steps(steps, site, previous, forks, log, s.steps.len());
    assert(before == executor::ran_steps(s.steps, site, previous, forks, log, s.steps.len()));
    assert(steps[s.steps.len() as int] == step);
    assert((steps.len() - 1) as nat == s.steps.len());
}

proof fn lemma_steps_prefix(
    short: Seq<FlowView>,
    long: Seq<FlowView>,
    site: Seq<int>,
    previous: Option<Seq<char>>,
    forks: Seq<(Seq<char>, JsonView)>,
    log: Map<Seq<int>, Result<Seq<char>, Fault>>,
    n: nat,
)
    requires
        n <= short.len() <= long.len(),
        forall|i: int| 0 <= i < short.len() ==> #[trigger] short[i] == long[i],
    ensures
        executor::ran_steps(short, site, previous, forks, log, n) == executor::ran_steps(
            long,
            site,
            previous,
            forks,
            log,
            n,
        ),
    decreases n,
{
    if n > 0 {
        lemma_steps_prefix(short, long, site, previous, forks, log, (n - 1) as nat);
        assert(short[n - 1] == long[n - 1]);
    }
}

// ---------------------------------------------------------------------------
// Forks
// ---------------------------------------------------------------------------

/// What the branch at position `i` of a fork comes to by itself: it gets what the fork
/// gets, and no forks.
pub open spec fn branch_run(
    k: ForkView,
    site: Seq<int>,
    previous: Option<Seq<char>>,
    log: Map<Seq<int>, Result<Seq<char>, Fault>>,
    i: int,
) -> Run {
    executor::ran(k.branches[i].1, site.push(i), previous, Seq::empty(), log)
}

/// A fork has ended exactly when all its branches have. Its output is then an object of
/// two objects: `branches` holds the output of every branch that ended well, as it is,
/// and `errors` the message of every one that failed, each under the key of its branch;
/// there is nothing else in them. The output is kept under the id of the fork, and what
/// is kept under other ids stays.
pub proof fn lemma_forks_collect_their_branches(
    k: ForkView,
    site: Seq<int>,
    previous: Option<Seq<char>>,
    forks: Seq<(Seq<char>, JsonView)>,
    log: Map<Seq<int>, Result<Seq<char>, Fault>>,
)
    requires
        ordered::ascending(k.branches),
    ensures
        ({
            let run = executor::ran(FlowView::Fork(k), site, previous, forks, log);
            let all_ended = forall|i: int|
                0 <= i < k.branches.len() ==> !((#[trigger] branch_run(
                    k,
                    site,
                    previous,
                    log,
                    i,
                )).state is Waiting);
            &&& all_ended <==> run.state is Done
            &&& !all_ended ==> run.state is Waiting && run.forks == forks
            &&& run.state matches State::Done(output) ==> {
                &&& collected(k, site, previous, log, output)
                &&& ordered::lookup(run.forks, k.id) == Some(output)
                &&& forall|id: Seq<char>|
                    id != k.id ==> #[trigger] ordered::lookup(run.forks, id) == ordered::lookup(
                        forks,
                        id,
                    )
            }
        }),
{
    broadcast use ordered::lemma_lookup_put;

    let n = k.branches.len();
    let limit = executor::fork_limit(k.concurrency);
    let inner = executor::ran_branches(k.branches, site, previous, limit, log, n);
    lemma_collected_so_far(k, site, previous, limit, log, n);
    reveal_strlit("branches");
    reveal_strlit("errors");
    assert("branches"@.len() == 8 && "errors"@.len() == 6);
    let run = executor::ran(FlowView::Fork(k), site, previous, forks, log);
    if inner.open == 0 {
        let first = ordered::put(
            Seq::empty(),
            "branches"@,
            JsonView::Object(inner.branches),
        );
        let output = executor::fork_output(inner.branches, inner.errors);
        assert(text::text_before("branches"@, "errors"@)) by {
            assert("branches"@[0] == 'b' && "errors"@[0] == 'e');
        }
        assert(first =~= seq![("branches"@, JsonView::Object(inner.branches))]);
        ordered::lemma_put_last(first, "errors"@, JsonView::Object(inner.errors));
        assert(output->Object_0 =~= seq![
            ("branches"@, JsonView::Object(inner.branches)),
            ("errors"@, JsonView::Object(inner.errors)),
        ]);
        assert(collected(k, site, previous, log, output));
    }
}

/// What a fork whose branches have all ended gives.
pub open spec fn collected(
    k: ForkView,
    site: Seq<int>,
    previous: Option<Seq<char>>,
    log: Map<Seq<int>, Result<Seq<char>, Fault>>,
    output: JsonView,
) -> bool {
    &&& output is Object
    &&& output->Object_0.len() == 2
    &&& output->Object_0[0].0 == "branches"@
    &&& output->Object_0[1].0 == "errors"@
    &&& output->Object_0[0].1 is Object
    &&& output->Object_0[1].1 is Object
    &&& ({
        let branches = output->Object_0[0].1->Object_0;
        let errors = output->Object_0[1].1->Object_0;
        &&& branches.len() + errors.len() == k.branches.len()
        &&& forall|i: int|
            0 <= i < k.branches.len() ==> match (#[trigger] branch_run(
                k,
                site,
                previous,
                log,
                i,
            )).state {
                State::Done(value) => {
                    &&& ordered::lookup(branches, k.branches[i].0) == Some(value)
                    &&& ordered::lookup(errors, k.branches[i].0) is None
                },
                State::Failed(Fault::InvalidArgument(message)) => {
                    &&& ordered::lookup(errors, k.branches[i].0) == Some(JsonView::Text(message))
                    &&& ordered::lookup(branches, k.branches[i].0) is None
                },
                State::Failed(Fault::Execution(message)) => {
                    &&& ordered::lookup(errors, k.branches[i].0) == Some(JsonView::Text(message))
                    &&& ordered::lookup(branches, k.branches[i].0) is None
                },
                State::Waiting => true,
            }
    })
}

/// The branches among the first `n` that have not ended by themselves.
pub open spec fn unended(
    k: ForkView,
    site: Seq<int>,
    previous: Option<Seq<char>>,
    log: Map<Seq<int>, Result<Seq<char>, Fault>>,
    n: int,
) -> Set<int> {
    Set::new(|i: int| 0 <= i < n && branch_run(k, site, previous, log, i).state is Waiting)
}

proof fn lemma_unended(
    k: ForkView,
    site: Seq<int>,
    previous: Option<Seq<char>>,
    log: Map<Seq<int>, Result<Seq<char>, Fault>>,
    n: nat,
)
    ensures
        unended(k, site, previous, log, n as int).finite(),
        n > 0 ==> unended(k, site, previous, log, n as int).len() == unended(
            k,
            site,
            previous,
            log,
            n - 1,
        ).len() + if branch_run(k, site, previous, log, n - 1).state is Waiting {
            1int
        } else {
            0int
        },
        n == 0 ==> unended(k, site, previous, log, 0).len() == 0,
    decreases n,
{
    let now = unended(k, site, previous, log, n as int);
    if n == 0 {
        assert(now =~= Set::empty());
    } else {
        let before = unended(k, site, previous, log, n - 1);
        lemma_unended(k, site, previous, log, (n - 1) as nat);
        if branch_run(k, site, previous, log, n - 1).state is Waiting {
            assert(now =~= before.insert(n - 1));
        } else {
            assert(now =~= before);
        }
    }
}

/// What the walk over the first `n` branches has: how many are open, what was
/// collected where none is, and that the open ones are those that have not ended by
/// themselves as long as the cap is not reached.
proof fn lemma_collected_so_far(
    k: ForkView,
    site: Seq<int>,
    previous: Option<Seq<char>>,
    limit: nat,
    log: Map<Seq<int>, Result<Seq<char>, Fault>>,
    n: nat,
)
    requires
        ordered::ascending(k.branches),
        n <= k.branches.len(),
        limit > 0,
    ensures
        ({
            let inner = executor::ran_branches(k.branches, site, previous, limit, log, n);
            let open = unended(k, site, previous, log, n as int);
            &&& open.finite()
            &&& inner.branches.len() + inner.errors.len() + inner.open == n
            &&& inner.open < limit <==> open.len() < limit
            &&& inner.open < limit ==> inner.open == open.len()
            &&& inner.open == 0 <==> forall|i: int|
                0 <= i < n ==> !((#[trigger] branch_run(k, site, previous, log, i)).state is Waiting)
            &&& forall|i: int|
                0 <= i < inner.branches.len() ==> n < k.branches.len() ==> text::text_before(
                    (#[trigger] inner.branches[i]).0,
                    k.branches[n as int].0,
                )
            &&& forall|i: int|
                0 <= i < inner.errors.len() ==> n < k.branches.len() ==> text::text_before(
                    (#[trigger] inner.errors[i]).0,
                    k.branches[n as int].0,
                )
            &&& inner.open == 0 ==> forall|i: int|
                0 <= i < n ==> match (#[trigger] branch_run(k, site, previous, log, i)).state {
                    State::Done(value) => {
                        &&& ordered::lookup(inner.branches, k.branches[i].0) == Some(value)
                        &&& ordered::lookup(inner.errors, k.branches[i].0) is None
                    },
                    State::Failed(fault) => {
                        &&& ordered::lookup(inner.errors, k.branches[i].0) == Some(
                            JsonView::Text(fault.message()),
                        )
                        &&& ordered::lookup(inner.branches, k.branches[i].0) is None
                    },
                    State::Waiting => false,
                }
        }),
    decreases n,
{
    broadcast use ordered::lemma_lookup_put;

    lemma_unended(k, site, previous, log, n);
    guarantees::lemma_collected_keys(k.branches, site, previous, limit, log, n);
    if n > 0 {
        let m = (n - 1) as nat;
        let before = executor::ran_branches(k.branches, site, previous, limit, log, m);
        let inner = executor::ran_branches(k.branches, site, previous, limit, log, n);
        let own = branch_run(k, site, previous, log, n - 1);
        let key = k.branches[n - 1].0;
        lemma_collected_so_far(k, site, previous, limit, log, m);
        lemma_unended(k, site, previous, log, m);
        if inner.open == 0 {
            assert(before.open == 0);
            text::lemma_before_irreflexive(key);
            ordered::lemma_lookup_position(before.branches, key);
            ordered::lemma_lookup_position(before.errors, key);
            assert(ordered::lookup(before.branches, key) is None);
            assert(ordered::lookup(before.errors, key) is None);
            assert forall|i: int| 0 <= i < n implies match (#[trigger] branch_run(
                k,
                site,
                previous,
                log,
                i,
            )).state {
                State::Done(value) => {
                    &&& ordered::lookup(inner.branches, k.branches[i].0) == Some(value)
                    &&& ordered::lookup(inner.errors, k.branches[i].0) is None
                },
                State::Failed(fault) => {
                    &&& ordered::lookup(inner.errors, k.branches[i].0) == Some(
                        JsonView::Text(fault.message()),
                    )
                    &&& ordered::lookup(inner.branches, k.branches[i].0) is None
                },
                State::Waiting => false,
            } by {
                if i < n - 1 {
                    assert(text::text_before(k.branches[i].0, key));
                    assert(!(branch_run(k, site, previous, log, i).state is Waiting));
                }
            }
        }
        assert(own.state is Waiting ==> inner.open > 0);
        if inner.open == 0 {
            assert forall|i: int| 0 <= i < n implies !((#[trigger] branch_run(
                k,
                site,
                previous,
                log,
                i,
            )).state is Waiting) by {
                if i == n - 1 {
                    assert(branch_run(k, site, previous, log, i) == own);
                }
            }
        }
        if before.open > 0 {
            let i = choose|i: int|
                0 <= i < m && (#[trigger] branch_run(k, site, previous, log, i)).state is Waiting;
            assert(branch_run(k, site, previous, log, i).state is Waiting);
        }
    }
}

/// A branch of a fork is run while fewer than the cap of the branches before it have not
/// ended: the calls that it asks for by itself are then calls of the fork, and otherwise
/// none comes from it. Calls of the fork come from its branches alone. The cap is four
/// where the fork gives none, and at least one.
pub proof fn lemma_forks_run_their_first_branches(
    k: ForkView,
    site: Seq<int>,
    previous: Option<Seq<char>>,
    forks: Seq<(Seq<char>, JsonView)>,
    log: Map<Seq<int>, Result<Seq<char>, Fault>>,
    call: CallView,
)
    requires
        ordered::ascending(k.branches),
    ensures
        executor::ran(FlowView::Fork(k), site, previous, forks, log).calls.contains(call)
            <==> exists|i: int|
            0 <= i < k.branches.len() && (#[trigger] branch_run(
                k,
                site,
                previous,
                log,
                i,
            )).calls.contains(call) && unended(k, site, previous, log, i).len() < match k.concurrency {
                None => 4,
                Some(n) => if n == 0 {
                    1
                } else {
                    n as int
                },
            },
{
    lemma_calls_so_far(
        k,
        site,
        previous,
        executor::fork_limit(k.concurrency),
        log,
        k.branches.len(),
        call,
    );
}

proof fn lemma_calls_so_far(
    k: ForkView,
    site: Seq<int>,
    previous: Option<Seq<char>>,
    limit: nat,
    log: Map<Seq<int>, Result<Seq<char>, Fault>>,
    n: nat,
    call: CallView,
)
    requires
        ordered::ascending(k.branches),
        n <= k.branches.len(),
        limit > 0,
    ensures
        executor::ran_branches(k.branches, site, previous, limit, log, n).calls.contains(call)
            <==> exists|i: int|
            0 <= i < n && (#[trigger] branch_run(k, site, previous, log, i)).calls.contains(call)
                && unended(k, site, previous, log, i).len() < limit,
    decreases n,
{
    if n > 0 {
        let m = (n - 1) as nat;
        let before = executor::ran_branches(k.branches, site, previous, limit, log, m);
        let inner = executor::ran_branches(k.branches, site, previous, limit, log, n);
        let own = branch_run(k, site, previous, log, n - 1);
        lemma_calls_so_far(k, site, previous, limit, log, m, call);
        lemma_collected_so_far(k, site, previous, limit, log, m);
        if before.open < limit {
            let all = before.calls + own.calls;
            assert(inner.calls == all);
            if before.calls.contains(call) {
                let i = before.calls.index_of(call);
                assert(all[i] == call);
            }
            if own.calls.contains(call) {
                let i = own.calls.index_of(call);
                assert(all[before.calls.len() + i] == call);
            }
            if all.contains(call) {
                let i = all.index_of(call);
                if i < before.calls.len() {
                    assert(before.calls[i] == call);
                } else {
                    assert(own.calls[i - before.calls.len()] == call);
                    assert(branch_run(k, site, previous, log, n - 1).calls.contains(call));
                }
            }
        } else {
            assert(inner.calls == before.calls);
        }
    }
}

/// A branch that is a spawn gets the output before the fork: where it is run and was not
/// answered, it is called with its own task, `{previous}` replaced in it by that output.
/// No other call comes from its place.
pub proof fn lemma_branches_get_the_output_before_the_fork(
    k: ForkView,
    site: Seq<int>,
    forks: Seq<(Seq<char>, JsonView)>,
    log: Map<Seq<int>, Result<Seq<char>, Fault>>,
    p: Seq<char>,
    i: int,
    s: SpawnView,
    call: CallView,
)
    requires
        ordered::ascending(k.branches),
        0 <= i < k.branches.len(),
        k.branches[i].1 == FlowView::Spawn(s),
        !log.contains_key(site.push(i)),
        call.site == site.push(i),
    ensures
        ({
            let run = executor::ran(FlowView::Fork(k), site, Some(p), forks, log);
            let own = CallView {
                site: site.push(i),
                agent: s.agent,
                task: text::replaced(s.task, "{previous}"@, p),
            };
            &&& i == 0 ==> run.calls.contains(own)
            &&& run.calls.contains(call) ==> call == own
        }),
{
    let own = CallView {
        site: site.push(i),
        agent: s.agent,
        task: text::replaced(s.task, "{previous}"@, p),
    };
    lemma_forks_run_their_first_branches(k, site, Some(p), forks, log, own);
    lemma_forks_run_their_first_branches(k, site, Some(p), forks, log, call);
    lemma_unended(k, site, Some(p), log, 0);
    assert(branch_run(k, site, Some(p), log, i).calls =~= seq![own]);
    assert(branch_run(k, site, Some(p), log, i).calls[0] == own);
    assert(branch_run(k, site, Some(p), log, i).calls.contains(own));
    if executor::ran(FlowView::Fork(k), site, Some(p), forks, log).calls.contains(call) {
        let b = choose|b: int|
            0 <= b < k.branches.len() && (#[trigger] branch_run(
                k,
                site,
                Some(p),
                log,
                b,
            )).calls.contains(call);
        let run = branch_run(k, site, Some(p), log, b);
        let at = run.calls.index_of(call);
        guarantees::lemma_calls_are_fresh(
            k.branches[b].1,
            site.push(b),
            Some(p),
            Seq::empty(),
            log,
        );
        assert(run.calls[at] == call);
        guarantees::lemma_inside_part(call.site, site, b);
        assert(call.site[site.len() as int] == i);
    }
}

// ---------------------------------------------------------------------------
// Joins
// ---------------------------------------------------------------------------

/// A join whose fork has not ended fails.
pub proof fn lemma_joins_need_their_fork(
    j: JoinView,
    site: Seq<int>,
    previous: Option<Seq<char>>,
    forks: Seq<(Seq<char>, JsonView)>,
    log: Map<Seq<int>, Result<Seq<char>, Fault>>,
)
    requires
        forall|i: int| 0 <= i < forks.len() ==> (#[trigger] forks[i]).0 != j.from,
    ensures
        executor::ran(FlowView::Join(j), site, previous, forks, log) == (Run {
            state: State::Failed(
                Fault::Execution(
                    "join references fork \""@ + j.from
                        + "\" which has not completed (must run after the fork in the same sequence)"@,
                ),
            ),
            forks,
            calls: Seq::empty(),
        }),
{
    ordered::lemma_lookup_position(forks, j.from);
}

/// A join over a fork with these outputs and errors fails exactly where too few branches
/// ended well: by `all`, where any failed; by `any`, where none ended well, however many
/// failed; by `quorum`, where fewer than the quorum did, which is one where none is given.
/// A join that collects errors goes on in any case where one branch ended well.
pub proof fn lemma_joins_go_by_their_mode(
    j: JoinView,
    site: Seq<int>,
    previous: Option<Seq<char>>,
    forks: Seq<(Seq<char>, JsonView)>,
    log: Map<Seq<int>, Result<Seq<char>, Fault>>,
    branches: Seq<(Seq<char>, JsonView)>,
    errors: Seq<(Seq<char>, JsonView)>,
)
    requires
        ordered::lookup(forks, j.from) == Some(
            JsonView::Object(
                seq![
                    ("branches"@, JsonView::Object(branches)),
                    ("errors"@, JsonView::Object(errors)),
                ],
            ),
        ),
        !(j.reducer matches Some(ReducerView::Agent(_))),
    ensures
        ({
            let run = executor::ran(FlowView::Join(j), site, previous, forks, log);
            let lenient = j.on_failure == Some(OnFailure::CollectErrors);
            &&& run.forks == forks
            &&& run.calls.len() == 0
            &&& run.state is Done || run.state is Failed
            &&& j.mode == JoinMode::Any ==> (run.state is Done <==> branches.len() >= 1)
            &&& j.mode == JoinMode::All && !lenient ==> (run.state is Done <==> errors.len() == 0)
            &&& j.mode == JoinMode::All && lenient ==> (run.state is Done <==> errors.len() == 0
                || branches.len() >= 1)
            &&& j.mode == JoinMode::Quorum && !lenient && j.quorum is Some ==> (run.state is Done
                <==> branches.len() >= j.quorum->0)
            &&& j.mode == JoinMode::Quorum && lenient && j.quorum is Some ==> (run.state is Done
                <==> branches.len() >= j.quorum->0 || branches.len() >= 1)
            &&& j.mode == JoinMode::Quorum && j.quorum is None ==> (run.state is Done
                <==> branches.len() >= 1)
            &&& run.state is Done ==> run.state == State::Done(ordered::lookup(forks, j.from)->0)
            &&& run.state is Failed ==> run.state == State::Failed(
                Fault::Execution(
                    "join \""@ + j.from + "\" not satisfied (mode="@ + match j.mode {
                        JoinMode::All => "All"@,
                        JoinMode::Any => "Any"@,
                        JoinMode::Quorum => "Quorum"@,
                    } + ", "@ + text::decimal_text(branches.len()) + " succeeded, "@
                        + text::decimal_text(errors.len()) + " failed)"@,
                ),
            )
        }),
{
    lemma_join_counts(branches, errors);
}

proof fn lemma_join_counts(
    branches: Seq<(Seq<char>, JsonView)>,
    errors: Seq<(Seq<char>, JsonView)>,
)
    ensures
        ({
            let output = JsonView::Object(
                seq![
                    ("branches"@, JsonView::Object(branches)),
                    ("errors"@, JsonView::Object(errors)),
                ],
            );
            &&& executor::member_count(output, "branches"@) == branches.len()
            &&& executor::member_count(output, "errors"@) == errors.len()
        }),
{
    reveal_strlit("branches");
    reveal_strlit("errors");
    assert("branches"@.len() == 8 && "errors"@.len() == 6);
    let entries = seq![
        ("branches"@, JsonView::Object(branches)),
        ("errors"@, JsonView::Object(errors)),
    ];
    reveal_with_fuel(ordered::lookup, 3);
    assert(entries.drop_first()[0] == ("errors"@, JsonView::Object(errors)));
}

/// A join with a reducing agent fails exactly where it would without one. Where it goes
/// on, it hands the agent the collected results, rendered over several lines: in place of
/// `{previous}` where the agent's task names it, and behind the task otherwise. It ends
/// with the agent's reply, as the agent's own output mode has it.
pub proof fn lemma_joins_reduce_through_their_agent(
    j: JoinView,
    r: AgentReducerView,
    site: Seq<int>,
    previous: Option<Seq<char>>,
    forks: Seq<(Seq<char>, JsonView)>,
    log: Map<Seq<int>, Result<Seq<char>, Fault>>,
)
    requires
        j.reducer == Some(ReducerView::Agent(r)),
        ordered::lookup(forks, j.from) is Some,
    ensures
        ({
            let run = executor::ran(FlowView::Join(j), site, previous, forks, log);
            let plain = executor::ran(
                FlowView::Join(JoinView { reducer: None, ..j }),
                site,
                previous,
                forks,
                log,
            );
            let collected = json::pretty_json(ordered::lookup(forks, j.from)->0);
            let spawn = |task: Seq<char>|
                executor::ran(
                    FlowView::Spawn(
                        SpawnView {
                            id: None,
                            label: None,
                            agent: r.agent,
                            task,
                            cwd: None,
                            output: r.output,
                        },
                    ),
                    site,
                    None,
                    forks,
                    log,
                );
            &&& plain.state is Failed ==> run == plain
            &&& !(plain.state is Failed) && (exists|i: int|
                0 <= i && i + 10 <= r.task.len() && #[trigger] r.task.subrange(i, i + 10)
                    == "{previous}"@) ==> run == spawn(
                text::replaced(r.task, "{previous}"@, collected),
            )
            &&& !(plain.state is Failed) && (forall|i: int|
                0 <= i && i + 10 <= r.task.len() ==> #[trigger] r.task.subrange(i, i + 10)
                    != "{previous}"@) ==> run == spawn(
                r.task + "\n\nCollected branch results (JSON):\n```json\n"@ + collected
                    + "\n```"@,
            )
        }),
{
    reveal_strlit("{previous}");
    if exists|i: int|
        0 <= i && i + 10 <= r.task.len() && #[trigger] r.task.subrange(i, i + 10)
            == "{previous}"@ {
        let i = choose|i: int|
            0 <= i && i + 10 <= r.task.len() && #[trigger] r.task.subrange(i, i + 10)
                == "{previous}"@;
        assert(text::occurs_at(r.task, "{previous}"@, i));
    } else {
        assert(!text::occurs(r.task, "{previous}"@)) by {
            if text::occurs(r.task, "{previous}"@) {
                let i = choose|i: int| text::occurs_at(r.task, "{previous}"@, i);
                assert(r.task.subrange(i, i + 10) == "{previous}"@);
            }
        }
    }
}

} // verus!
