//! What the engine promises of every run.

use vstd::prelude::*;
use crate::executor;
use crate::executor::{CallView, Fault, State};
use crate::flow::{FlowView, ReducerView};
use crate::json::JsonView;
use crate::ordered;
use crate::references;
use crate::text;

verus! {

// ---------------------------------------------------------------------------
// Calls: where they come from, and that a waiting run has some
// ---------------------------------------------------------------------------

/// The place `inner` is `site` or lies inside it.
pub open spec fn within(inner: Seq<int>, site: Seq<int>) -> bool {
    site.len() <= inner.len() && inner.take(site.len() as int) == site
}

/// The place `inner` lies in one of the first `n` parts of `site`.
pub open spec fn below(inner: Seq<int>, site: Seq<int>, n: nat) -> bool {
    &&& site.len() < inner.len()
    &&& inner.take(site.len() as int) == site
    &&& 0 <= inner[site.len() as int] < n
}

/// No call was answered yet, and no two come from the same place.
pub open spec fn fresh(
    calls: Seq<CallView>,
    log: Map<Seq<int>, Result<Seq<char>, Fault>>,
) -> bool {
    &&& forall|i: int| 0 <= i < calls.len() ==> !log.contains_key((#[trigger] calls[i]).site)
    &&& forall|i: int, j: int|
        0 <= i < j < calls.len() ==> (#[trigger] calls[i]).site != (#[trigger] calls[j]).site
}

/// A run that waits has calls to make; no call it asks for was answered already,
/// no two come from the same place, and all come from inside the node. A run that
/// has ended asks for nothing.
pub proof fn lemma_calls_are_fresh(
    f: FlowView,
    site: Seq<int>,
    previous: Option<Seq<char>>,
    forks: Seq<(Seq<char>, JsonView)>,
    log: Map<Seq<int>, Result<Seq<char>, Fault>>,
)
    ensures
        ({
            let run = executor::ran(f, site, previous, forks, log);
            &&& run.state is Waiting <==> run.calls.len() > 0
            &&& fresh(run.calls, log)
            &&& forall|i: int|
                0 <= i < run.calls.len() ==> within((#[trigger] run.calls[i]).site, site)
        }),
    decreases f, 0nat,
{
    executor::lemma_ended_nodes_wait_for_nothing(f, site, previous, forks, log);
    assert(site.take(site.len() as int) =~= site);
    match f {
        FlowView::Sequence(s) => {
            lemma_step_calls_are_fresh(s.steps, site, previous, forks, log, s.steps.len());
        },
        FlowView::Fork(k) => {
            lemma_branch_calls_are_fresh(
                k.branches,
                site,
                previous,
                executor::fork_limit(k.concurrency),
                log,
                k.branches.len(),
            );
        },
        _ => {},
    }
}

/// A place inside a part of another lies inside that other, behind the part's number.
pub proof fn lemma_inside_part(inner: Seq<int>, site: Seq<int>, k: int)
    requires
        within(inner, site.push(k)),
    ensures
        within(inner, site),
        site.len() < inner.len(),
        inner[site.len() as int] == k,
{
    let head = inner.take((site.len() + 1) as int);
    assert(head == site.push(k));
    assert(head[site.len() as int] == k);
    assert(inner.take(site.len() as int) =~= head.take(site.len() as int));
    assert(site.push(k).take(site.len() as int) =~= site);
}

proof fn lemma_step_calls_are_fresh(
    steps: Seq<FlowView>,
    site: Seq<int>,
    previous: Option<Seq<char>>,
    forks: Seq<(Seq<char>, JsonView)>,
    log: Map<Seq<int>, Result<Seq<char>, Fault>>,
    n: nat,
)
    requires
        n <= steps.len(),
    ensures
        ({
            let run = executor::ran_steps(steps, site, previous, forks, log, n);
            &&& run.state is Waiting ==> run.calls.len() > 0
            &&& fresh(run.calls, log)
            &&& forall|i: int|
                0 <= i < run.calls.len() ==> below((#[trigger] run.calls[i]).site, site, n)
        }),
    decreases steps, n,
{
    if n > 0 {
        let before = executor::ran_steps(steps, site, previous, forks, log, (n - 1) as nat);
        lemma_step_calls_are_fresh(steps, site, previous, forks, log, (n - 1) as nat);
        match before.state {
            State::Done(output) => {
                let given = if n == 1 {
                    previous
                } else {
                    Some(executor::output_text(output))
                };
                lemma_calls_are_fresh(steps[n - 1], site.push(n - 1), given, before.forks, log);
                let run = executor::ran(steps[n - 1], site.push(n - 1), given, before.forks, log);
                assert forall|i: int| 0 <= i < run.calls.len() implies below(
                    (#[trigger] run.calls[i]).site,
                    site,
                    n,
                ) by {
                    lemma_inside_part(run.calls[i].site, site, n - 1);
                }
            },
            _ => {},
        }
    }
}

proof fn lemma_branch_calls_are_fresh(
    branches: Seq<(Seq<char>, FlowView)>,
    site: Seq<int>,
    previous: Option<Seq<char>>,
    limit: nat,
    log: Map<Seq<int>, Result<Seq<char>, Fault>>,
    n: nat,
)
    requires
        n <= branches.len(),
        limit > 0,
    ensures
        ({
            let run = executor::ran_branches(branches, site, previous, limit, log, n);
            &&& run.open > 0 ==> run.calls.len() > 0
            &&& fresh(run.calls, log)
            &&& forall|i: int|
                0 <= i < run.calls.len() ==> below((#[trigger] run.calls[i]).site, site, n)
        }),
    decreases branches, n,
{
    if n > 0 {
        assert(decreases_to!(branches => branches[n - 1]));
        assert(decreases_to!(branches[n - 1] => branches[n - 1].1));
        let before = executor::ran_branches(
            branches,
            site,
            previous,
            limit,
            log,
            (n - 1) as nat,
        );
        lemma_branch_calls_are_fresh(branches, site, previous, limit, log, (n - 1) as nat);
        if before.open < limit {
            let inner = site.push(n - 1);
            let run = executor::ran(branches[n - 1].1, inner, previous, Seq::empty(), log);
            lemma_calls_are_fresh(branches[n - 1].1, inner, previous, Seq::empty(), log);
            let all = before.calls + run.calls;
            assert forall|i: int| 0 <= i < all.len() implies below(
                (#[trigger] all[i]).site,
                site,
                n,
            ) && !log.contains_key(all[i].site) by {
                if i >= before.calls.len() {
                    let j = i - before.calls.len();
                    assert(all[i] == run.calls[j]);
                    lemma_inside_part(run.calls[j].site, site, n - 1);
                } else {
                    assert(all[i] == before.calls[i]);
                }
            }
            assert forall|i: int, j: int| 0 <= i < j < all.len() implies (#[trigger] all[i]).site
                != (#[trigger] all[j]).site by {
                if j < before.calls.len() {
                    assert(all[i] == before.calls[i] && all[j] == before.calls[j]);
                } else {
                    let b = j - before.calls.len();
                    assert(all[j] == run.calls[b]);
                    if i >= before.calls.len() {
                        assert(all[i] == run.calls[i - before.calls.len()]);
                    } else {
                        assert(all[i] == before.calls[i]);
                        lemma_inside_part(run.calls[b].site, site, n - 1);
                    }
                }
            }
        }
    }
}

// ---------------------------------------------------------------------------
// The concurrency cap
// ---------------------------------------------------------------------------

/// How many of the first `n` branches of a fork are started and not ended.
pub open spec fn running(
    branches: Seq<(Seq<char>, FlowView)>,
    site: Seq<int>,
    previous: Option<Seq<char>>,
    limit: nat,
    log: Map<Seq<int>, Result<Seq<char>, Fault>>,
    n: nat,
) -> nat
    decreases n,
{
    if n == 0 || n > branches.len() {
        0
    } else {
        let before = executor::ran_branches(branches, site, previous, limit, log, (n - 1) as nat);
        let branch = executor::ran(
            branches[n - 1].1,
            site.push(n - 1),
            previous,
            Seq::empty(),
            log,
        );
        running(branches, site, previous, limit, log, (n - 1) as nat) + if before.open < limit
            && branch.state is Waiting {
            1nat
        } else {
            0nat
        }
    }
}

/// Of the branches of a fork that have not ended, as many run as the cap allows:
/// never more, and never fewer than there are.
pub proof fn lemma_concurrency_is_capped(
    branches: Seq<(Seq<char>, FlowView)>,
    site: Seq<int>,
    previous: Option<Seq<char>>,
    limit: nat,
    log: Map<Seq<int>, Result<Seq<char>, Fault>>,
    n: nat,
)
    requires
        n <= branches.len(),
    ensures
        ({
            let open = executor::ran_branches(branches, site, previous, limit, log, n).open;
            running(branches, site, previous, limit, log, n) == if open < limit {
                open
            } else {
                limit
            }
        }),
    decreases n,
{
    if n > 0 {
        lemma_concurrency_is_capped(branches, site, previous, limit, log, (n - 1) as nat);
    }
}

// ---------------------------------------------------------------------------
// More replies never undo anything
// ---------------------------------------------------------------------------

/// A node that has ended stays as it is, whatever other replies come in.
pub proof fn lemma_ended_nodes_stay(
    f: FlowView,
    site: Seq<int>,
    previous: Option<Seq<char>>,
    forks: Seq<(Seq<char>, JsonView)>,
    log: Map<Seq<int>, Result<Seq<char>, Fault>>,
    later: Map<Seq<int>, Result<Seq<char>, Fault>>,
)
    requires
        log.submap_of(later),
    ensures
        !(executor::ran(f, site, previous, forks, log).state is Waiting) ==> executor::ran(
            f,
            site,
            previous,
            forks,
            later,
        ) == executor::ran(f, site, previous, forks, log),
    decreases f, 0nat,
{
    match f {
        FlowView::Spawn(_) => {
            assert(log.contains_key(site) ==> later.contains_key(site) && later[site] == log[site]);
        },
        FlowView::Join(_) => {
            assert(log.contains_key(site) ==> later.contains_key(site) && later[site] == log[site]);
        },
        FlowView::Sequence(s) => {
            lemma_ended_steps_stay(s.steps, site, previous, forks, log, later, s.steps.len());
        },
        FlowView::Fork(k) => {
            let limit = executor::fork_limit(k.concurrency);
            lemma_open_branches_dwindle(
                k.branches,
                site,
                previous,
                limit,
                log,
                later,
                k.branches.len(),
            );
        },
        FlowView::Loop(_) => {},
    }
}

proof fn lemma_ended_steps_stay(
    steps: Seq<FlowView>,
    site: Seq<int>,
    previous: Option<Seq<char>>,
    forks: Seq<(Seq<char>, JsonView)>,
    log: Map<Seq<int>, Result<Seq<char>, Fault>>,
    later: Map<Seq<int>, Result<Seq<char>, Fault>>,
    n: nat,
)
    requires
        log.submap_of(later),
        n <= steps.len(),
    ensures
        !(executor::ran_steps(steps, site, previous, forks, log, n).state is Waiting)
            ==> executor::ran_steps(steps, site, previous, forks, later, n)
            == executor::ran_steps(steps, site, previous, forks, log, n),
    decreases steps, n,
{
    if n > 0 {
        let before = executor::ran_steps(steps, site, previous, forks, log, (n - 1) as nat);
        lemma_ended_steps_stay(steps, site, previous, forks, log, later, (n - 1) as nat);
        match before.state {
            State::Done(output) => {
                lemma_ended_nodes_stay(
                    steps[n - 1],
                    site.push(n - 1),
                    if n == 1 {
                        previous
                    } else {
                        Some(executor::output_text(output))
                    },
                    before.forks,
                    log,
                    later,
                );
            },
            _ => {},
        }
    }
}

proof fn lemma_open_branches_dwindle(
    branches: Seq<(Seq<char>, FlowView)>,
    site: Seq<int>,
    previous: Option<Seq<char>>,
    limit: nat,
    log: Map<Seq<int>, Result<Seq<char>, Fault>>,
    later: Map<Seq<int>, Result<Seq<char>, Fault>>,
    n: nat,
)
    requires
        log.submap_of(later),
        n <= branches.len(),
    ensures
        ({
            let run = executor::ran_branches(branches, site, previous, limit, log, n);
            let next = executor::ran_branches(branches, site, previous, limit, later, n);
            &&& next.open <= run.open
            &&& run.open == 0 ==> next == run
        }),
    decreases branches, n,
{
    if n > 0 {
        assert(decreases_to!(branches => branches[n - 1]));
        assert(decreases_to!(branches[n - 1] => branches[n - 1].1));
        lemma_open_branches_dwindle(
            branches,
            site,
            previous,
            limit,
            log,
            later,
            (n - 1) as nat,
        );
        lemma_ended_nodes_stay(
            branches[n - 1].1,
            site.push(n - 1),
            previous,
            Seq::empty(),
            log,
            later,
        );
    }
}

/// A call that was asked for and has no reply yet is still asked for, with the
/// same agent and the same task, whatever other replies come in.
pub proof fn lemma_open_calls_stay(
    f: FlowView,
    site: Seq<int>,
    previous: Option<Seq<char>>,
    forks: Seq<(Seq<char>, JsonView)>,
    log: Map<Seq<int>, Result<Seq<char>, Fault>>,
    later: Map<Seq<int>, Result<Seq<char>, Fault>>,
    call: CallView,
)
    requires
        log.submap_of(later),
        !later.contains_key(call.site),
        executor::ran(f, site, previous, forks, log).calls.contains(call),
    ensures
        executor::ran(f, site, previous, forks, later).calls.contains(call),
    decreases f, 0nat,
{
    match f {
        FlowView::Sequence(s) => {
            lemma_open_step_calls_stay(
                s.steps,
                site,
                previous,
                forks,
                log,
                later,
                call,
                s.steps.len(),
            );
        },
        FlowView::Fork(k) => {
            let limit = executor::fork_limit(k.concurrency);
            lemma_open_branch_calls_stay(
                k.branches,
                site,
                previous,
                limit,
                log,
                later,
                call,
                k.branches.len(),
            );
        },
        _ => {
            let calls = executor::ran(f, site, previous, forks, log).calls;
            let i = calls.index_of(call);
            assert(calls[i] == call);
            assert(executor::ran(f, site, previous, forks, later).calls =~= calls);
        },
    }
}

proof fn lemma_open_step_calls_stay(
    steps: Seq<FlowView>,
    site: Seq<int>,
    previous: Option<Seq<char>>,
    forks: Seq<(Seq<char>, JsonView)>,
    log: Map<Seq<int>, Result<Seq<char>, Fault>>,
    later: Map<Seq<int>, Result<Seq<char>, Fault>>,
    call: CallView,
    n: nat,
)
    requires
        log.submap_of(later),
        !later.contains_key(call.site),
        n <= steps.len(),
        executor::ran_steps(steps, site, previous, forks, log, n).calls.contains(call),
    ensures
        executor::ran_steps(steps, site, previous, forks, later, n).calls.contains(call),
        executor::ran_steps(steps, site, previous, forks, later, n).state is Waiting,
    decreases steps, n,
{
    if n > 0 {
        let before = executor::ran_steps(steps, site, previous, forks, log, (n - 1) as nat);
        match before.state {
            State::Done(output) => {
                let given = if n == 1 {
                    previous
                } else {
                    Some(executor::output_text(output))
                };
                lemma_ended_steps_stay(steps, site, previous, forks, log, later, (n - 1) as nat);
                lemma_open_calls_stay(
                    steps[n - 1],
                    site.push(n - 1),
                    given,
                    before.forks,
                    log,
                    later,
                    call,
                );
                lemma_calls_are_fresh(steps[n - 1], site.push(n - 1), given, before.forks, later);
            },
            _ => {
                lemma_open_step_calls_stay(
                    steps,
                    site,
                    previous,
                    forks,
                    log,
                    later,
                    call,
                    (n - 1) as nat,
                );
            },
        }
    }
}

proof fn lemma_open_branch_calls_stay(
    branches: Seq<(Seq<char>, FlowView)>,
    site: Seq<int>,
    previous: Option<Seq<char>>,
    limit: nat,
    log: Map<Seq<int>, Result<Seq<char>, Fault>>,
    later: Map<Seq<int>, Result<Seq<char>, Fault>>,
    call: CallView,
    n: nat,
)
    requires
        log.submap_of(later),
        !later.contains_key(call.site),
        n <= branches.len(),
        executor::ran_branches(branches, site, previous, limit, log, n).calls.contains(call),
    ensures
        executor::ran_branches(branches, site, previous, limit, later, n).calls.contains(call),
    decreases branches, n,
{
    if n > 0 {
        assert(decreases_to!(branches => branches[n - 1]));
        assert(decreases_to!(branches[n - 1] => branches[n - 1].1));
        let m = (n - 1) as nat;
        let before = executor::ran_branches(branches, site, previous, limit, log, m);
        let next = executor::ran_branches(branches, site, previous, limit, later, m);
        lemma_open_branches_dwindle(branches, site, previous, limit, log, later, m);
        let inner = site.push(n - 1);
        let all = executor::ran_branches(branches, site, previous, limit, later, n).calls;
        if before.calls.contains(call) {
            lemma_open_branch_calls_stay(
                branches,
                site,
                previous,
                limit,
                log,
                later,
                call,
                m,
            );
            let i = next.calls.index_of(call);
            assert(next.calls[i] == call);
            assert(all[i] == call);
        } else {
            let run = executor::ran(branches[n - 1].1, inner, previous, Seq::empty(), log);
            let later_run = executor::ran(branches[n - 1].1, inner, previous, Seq::empty(), later);
            let i = executor::ran_branches(
                branches,
                site,
                previous,
                limit,
                log,
                n,
            ).calls.index_of(call);
            if i < before.calls.len() {
                assert(before.calls[i] == call);
            }
            assert(run.calls[i - before.calls.len()] == call);
            lemma_open_calls_stay(
                branches[n - 1].1,
                inner,
                previous,
                Seq::empty(),
                log,
                later,
                call,
            );
            let j = later_run.calls.index_of(call);
            assert(later_run.calls[j] == call);
            assert(all[next.calls.len() as int + j] == call);
        }
    }
}

/// In which order two replies came in makes no difference.
pub proof fn lemma_reply_order_is_irrelevant(
    f: FlowView,
    log: Map<Seq<int>, Result<Seq<char>, Fault>>,
    a: Seq<int>,
    to_a: Result<Seq<char>, Fault>,
    b: Seq<int>,
    to_b: Result<Seq<char>, Fault>,
)
    requires
        a != b,
    ensures
        executor::executed(f, log.insert(a, to_a).insert(b, to_b)) == executor::executed(
            f,
            log.insert(b, to_b).insert(a, to_a),
        ),
{
    assert(log.insert(a, to_a).insert(b, to_b) =~= log.insert(b, to_b).insert(a, to_a));
}

// ---------------------------------------------------------------------------
// A run ends
// ---------------------------------------------------------------------------

/// The places of a flow that may call an agent: spawns, and joins that reduce
/// through one.
pub open spec fn call_sites(f: FlowView, site: Seq<int>) -> Seq<Seq<int>>
    decreases f, 0nat,
{
    match f {
        FlowView::Spawn(_) => seq![site],
        FlowView::Join(j) => match j.reducer {
            Some(ReducerView::Agent(_)) => seq![site],
            _ => Seq::empty(),
        },
        FlowView::Sequence(s) => step_sites(s.steps, site, s.steps.len()),
        FlowView::Fork(k) => branch_sites(k.branches, site, k.branches.len()),
        FlowView::Loop(_) => Seq::empty(),
    }
}

/// The places of the first `n` steps that may call an agent.
pub open spec fn step_sites(steps: Seq<FlowView>, site: Seq<int>, n: nat) -> Seq<Seq<int>>
    decreases steps, n,
{
    if n == 0 || n > steps.len() {
        Seq::empty()
    } else {
        step_sites(steps, site, (n - 1) as nat) + call_sites(steps[n - 1], site.push(n - 1))
    }
}

/// The places of the first `n` branches that may call an agent.
pub open spec fn branch_sites(
    branches: Seq<(Seq<char>, FlowView)>,
    site: Seq<int>,
    n: nat,
) -> Seq<Seq<int>>
    decreases branches, n,
{
    if n == 0 || n > branches.len() {
        Seq::empty()
    } else {
        proof {
            assert(decreases_to!(branches => branches[n - 1]));
            assert(decreases_to!(branches[n - 1] => branches[n - 1].1));
        }
        branch_sites(branches, site, (n - 1) as nat) + call_sites(
            branches[n - 1].1,
            site.push(n - 1),
        )
    }
}

/// Every call comes from one of the flow's call sites.
pub proof fn lemma_calls_have_sites(
    f: FlowView,
    site: Seq<int>,
    previous: Option<Seq<char>>,
    forks: Seq<(Seq<char>, JsonView)>,
    log: Map<Seq<int>, Result<Seq<char>, Fault>>,
)
    ensures
        ({
            let calls = executor::ran(f, site, previous, forks, log).calls;
            forall|i: int|
                0 <= i < calls.len() ==> call_sites(f, site).contains((#[trigger] calls[i]).site)
        }),
    decreases f, 0nat,
{
    match f {
        FlowView::Sequence(s) => {
            lemma_step_calls_have_sites(s.steps, site, previous, forks, log, s.steps.len());
        },
        FlowView::Fork(k) => {
            lemma_branch_calls_have_sites(
                k.branches,
                site,
                previous,
                executor::fork_limit(k.concurrency),
                log,
                k.branches.len(),
            );
            let run = executor::ran_branches(
                k.branches,
                site,
                previous,
                executor::fork_limit(k.concurrency),
                log,
                k.branches.len(),
            );
            assert(executor::ran(f, site, previous, forks, log).calls == run.calls);
            assert(call_sites(f, site) == branch_sites(k.branches, site, k.branches.len()));
        },
        _ => {
            let calls = executor::ran(f, site, previous, forks, log).calls;
            assert forall|i: int| 0 <= i < calls.len() implies call_sites(f, site).contains(
                (#[trigger] calls[i]).site,
            ) by {
                assert(call_sites(f, site)[0] == site);
            }
        },
    }
}

proof fn lemma_step_calls_have_sites(
    steps: Seq<FlowView>,
    site: Seq<int>,
    previous: Option<Seq<char>>,
    forks: Seq<(Seq<char>, JsonView)>,
    log: Map<Seq<int>, Result<Seq<char>, Fault>>,
    n: nat,
)
    requires
        n <= steps.len(),
    ensures
        ({
            let calls = executor::ran_steps(steps, site, previous, forks, log, n).calls;
            forall|i: int|
                0 <= i < calls.len() ==> step_sites(steps, site, n).contains(
                    (#[trigger] calls[i]).site,
                )
        }),
    decreases steps, n,
{
    if n > 0 {
        let before = executor::ran_steps(steps, site, previous, forks, log, (n - 1) as nat);
        let earlier = step_sites(steps, site, (n - 1) as nat);
        let own = call_sites(steps[n - 1], site.push(n - 1));
        let calls = executor::ran_steps(steps, site, previous, forks, log, n).calls;
        match before.state {
            State::Done(output) => {
                lemma_calls_have_sites(
                    steps[n - 1],
                    site.push(n - 1),
                    if n == 1 {
                        previous
                    } else {
                        Some(executor::output_text(output))
                    },
                    before.forks,
                    log,
                );
                assert forall|i: int| 0 <= i < calls.len() implies (earlier + own).contains(
                    (#[trigger] calls[i]).site,
                ) by {
                    let k = own.index_of(calls[i].site);
                    assert((earlier + own)[earlier.len() as int + k] == calls[i].site);
                }
            },
            _ => {
                lemma_step_calls_have_sites(steps, site, previous, forks, log, (n - 1) as nat);
                assert forall|i: int| 0 <= i < calls.len() implies (earlier + own).contains(
                    (#[trigger] calls[i]).site,
                ) by {
                    let k = earlier.index_of(calls[i].site);
                    assert((earlier + own)[k] == calls[i].site);
                }
            },
        }
    }
}

proof fn lemma_branch_calls_have_sites(
    branches: Seq<(Seq<char>, FlowView)>,
    site: Seq<int>,
    previous: Option<Seq<char>>,
    limit: nat,
    log: Map<Seq<int>, Result<Seq<char>, Fault>>,
    n: nat,
)
    requires
        n <= branches.len(),
    ensures
        ({
            let calls = executor::ran_branches(branches, site, previous, limit, log, n).calls;
            forall|i: int|
                0 <= i < calls.len() ==> branch_sites(branches, site, n).contains(
                    (#[trigger] calls[i]).site,
                )
        }),
    decreases branches, n,
{
    if n > 0 {
        assert(decreases_to!(branches => branches[n - 1]));
        assert(decreases_to!(branches[n - 1] => branches[n - 1].1));
        let m = (n - 1) as nat;
        let before = executor::ran_branches(branches, site, previous, limit, log, m);
        let earlier = branch_sites(branches, site, m);
        let own = call_sites(branches[n - 1].1, site.push(n - 1));
        let calls = executor::ran_branches(branches, site, previous, limit, log, n).calls;
        let inner = executor::ran(
            branches[n - 1].1,
            site.push(n - 1),
            previous,
            Seq::empty(),
            log,
        ).calls;
        lemma_branch_calls_have_sites(branches, site, previous, limit, log, m);
        lemma_calls_have_sites(
            branches[n - 1].1,
            site.push(n - 1),
            previous,
            Seq::empty(),
            log,
        );
        assert forall|i: int| 0 <= i < calls.len() implies (earlier + own).contains(
            (#[trigger] calls[i]).site,
        ) by {
            if i < before.calls.len() {
                assert(calls[i] == before.calls[i]);
                let k = earlier.index_of(calls[i].site);
                assert((earlier + own)[k] == calls[i].site);
            } else {
                assert(calls[i] == inner[i - before.calls.len()]);
                let k = own.index_of(calls[i].site);
                assert((earlier + own)[earlier.len() as int + k] == calls[i].site);
            }
        }
    }
}

/// Once every call site has a reply, the flow has ended: a run asks for no more
/// replies than the flow has call sites.
pub proof fn lemma_runs_end(f: FlowView, log: Map<Seq<int>, Result<Seq<char>, Fault>>)
    requires
        forall|i: int|
            0 <= i < call_sites(f, Seq::empty()).len() ==> log.contains_key(
                #[trigger] call_sites(f, Seq::empty())[i],
            ),
    ensures
        !(executor::executed(f, log).state is Waiting),
{
    let run = executor::executed(f, log);
    let sites = call_sites(f, Seq::empty());
    lemma_calls_are_fresh(f, Seq::empty(), None, Seq::empty(), log);
    lemma_calls_have_sites(f, Seq::empty(), None, Seq::empty(), log);
    if run.state is Waiting {
        let k = sites.index_of(run.calls[0].site);
        assert(sites[k] == run.calls[0].site);
    }
}

/// A sequence that has ended ended with what its last step ended with, and every
/// step before that ended too; one without steps ends with `null`.
pub proof fn lemma_sequences_end_with_their_last_step(
    steps: Seq<FlowView>,
    site: Seq<int>,
    previous: Option<Seq<char>>,
    forks: Seq<(Seq<char>, JsonView)>,
    log: Map<Seq<int>, Result<Seq<char>, Fault>>,
    n: nat,
)
    requires
        n <= steps.len(),
    ensures
        ({
            let run = executor::ran_steps(steps, site, previous, forks, log, n);
            let before = executor::ran_steps(steps, site, previous, forks, log, (n - 1) as nat);
            &&& n == 0 ==> run.state == State::Done(JsonView::Null)
            &&& n > 0 && run.state is Done ==> before.state is Done && run == executor::ran(
                steps[n - 1],
                site.push(n - 1),
                if n == 1 {
                    previous
                } else {
                    Some(executor::output_text(before.state->Done_0))
                },
                before.forks,
                log,
            )
        }),
{
}

// ---------------------------------------------------------------------------
// What a fork collects
// ---------------------------------------------------------------------------

/// Every branch of a fork is accounted for once: among the outputs, among the
/// errors, or still open.
pub proof fn lemma_branches_are_accounted_for(
    branches: Seq<(Seq<char>, FlowView)>,
    site: Seq<int>,
    previous: Option<Seq<char>>,
    limit: nat,
    log: Map<Seq<int>, Result<Seq<char>, Fault>>,
    n: nat,
)
    requires
        ordered::ascending(branches),
        n <= branches.len(),
    ensures
        ({
            let run = executor::ran_branches(branches, site, previous, limit, log, n);
            &&& run.branches.len() + run.errors.len() + run.open == n
            &&& run.open == 0 ==> forall|i: int|
                0 <= i < n ==> (ordered::lookup(run.branches, (#[trigger] branches[i]).0) is Some)
                    != (ordered::lookup(run.errors, branches[i].0) is Some)
        }),
    decreases n,
{
    lemma_collected_keys(branches, site, previous, limit, log, n);
    if n > 0 {
        let m = (n - 1) as nat;
        let before = executor::ran_branches(branches, site, previous, limit, log, m);
        let run = executor::ran_branches(branches, site, previous, limit, log, n);
        let key = branches[n - 1].0;
        lemma_branches_are_accounted_for(branches, site, previous, limit, log, m);
        lemma_collected_keys(branches, site, previous, limit, log, m);
        if run.open == 0 {
            let inner = executor::ran(
                branches[n - 1].1,
                site.push(n - 1),
                previous,
                Seq::empty(),
                log,
            );
            text::lemma_before_irreflexive(key);
            ordered::lemma_lookup_position(before.branches, key);
            ordered::lemma_lookup_position(before.errors, key);
            assert forall|i: int| 0 <= i < n implies (ordered::lookup(
                run.branches,
                (#[trigger] branches[i]).0,
            ) is Some) != (ordered::lookup(run.errors, branches[i].0) is Some) by {
                if i < n - 1 {
                    assert(text::text_before(branches[i].0, key));
                }
                match inner.state {
                    State::Done(value) => {
                        ordered::lemma_lookup_put(before.branches, key, value, branches[i].0);
                    },
                    State::Failed(fault) => {
                        ordered::lemma_lookup_put(
                            before.errors,
                            key,
                            JsonView::Text(fault.message()),
                            branches[i].0,
                        );
                    },
                    State::Waiting => {},
                }
            }
        }
    }
}

/// What a fork collected so far has keys of the branches walked so far, in
/// order.
pub proof fn lemma_collected_keys(
    branches: Seq<(Seq<char>, FlowView)>,
    site: Seq<int>,
    previous: Option<Seq<char>>,
    limit: nat,
    log: Map<Seq<int>, Result<Seq<char>, Fault>>,
    n: nat,
)
    requires
        ordered::ascending(branches),
        n <= branches.len(),
    ensures
        ({
            let run = executor::ran_branches(branches, site, previous, limit, log, n);
            &&& run.branches.len() + run.errors.len() + run.open == n
            &&& n < branches.len() ==> forall|i: int|
                0 <= i < run.branches.len() ==> text::text_before(
                    (#[trigger] run.branches[i]).0,
                    branches[n as int].0,
                )
            &&& n < branches.len() ==> forall|i: int|
                0 <= i < run.errors.len() ==> text::text_before(
                    (#[trigger] run.errors[i]).0,
                    branches[n as int].0,
                )
        }),
    decreases n,
{
    if n > 0 {
        let m = (n - 1) as nat;
        let before = executor::ran_branches(branches, site, previous, limit, log, m);
        let run = executor::ran_branches(branches, site, previous, limit, log, n);
        let key = branches[n - 1].0;
        lemma_collected_keys(branches, site, previous, limit, log, m);
        let inner = executor::ran(
            branches[n - 1].1,
            site.push(n - 1),
            previous,
            Seq::empty(),
            log,
        );
        if before.open < limit {
            match inner.state {
                State::Done(value) => {
                    ordered::lemma_put_last(before.branches, key, value);
                },
                State::Failed(fault) => {
                    ordered::lemma_put_last(
                        before.errors,
                        key,
                        JsonView::Text(fault.message()),
                    );
                },
                State::Waiting => {},
            }
        }
        if n < branches.len() {
            let next = branches[n as int].0;
            assert(text::text_before(key, next));
            assert forall|i: int| 0 <= i < run.branches.len() implies text::text_before(
                (#[trigger] run.branches[i]).0,
                next,
            ) by {
                if run.branches[i].0 != key {
                    assert(run.branches[i] == before.branches[i]);
                    text::lemma_before_transitive(run.branches[i].0, key, next);
                }
            }
            assert forall|i: int| 0 <= i < run.errors.len() implies text::text_before(
                (#[trigger] run.errors[i]).0,
                next,
            ) by {
                if run.errors[i].0 != key {
                    assert(run.errors[i] == before.errors[i]);
                    text::lemma_before_transitive(run.errors[i].0, key, next);
                }
            }
        }
    }
}

/// A join sees as many successes and failures as the fork collected.
pub proof fn lemma_joins_count_what_was_collected(
    branches: Seq<(Seq<char>, JsonView)>,
    errors: Seq<(Seq<char>, JsonView)>,
)
    ensures
        executor::member_count(executor::fork_output(branches, errors), "branches"@)
            == branches.len(),
        executor::member_count(executor::fork_output(branches, errors), "errors"@) == errors.len(),
{
    broadcast use ordered::lemma_lookup_put;

    reveal_strlit("branches");
    reveal_strlit("errors");
    assert("branches"@.len() != "errors"@.len());
}

/// The output of a fork is not forgotten.
pub proof fn lemma_forks_are_kept(
    f: FlowView,
    site: Seq<int>,
    previous: Option<Seq<char>>,
    forks: Seq<(Seq<char>, JsonView)>,
    log: Map<Seq<int>, Result<Seq<char>, Fault>>,
    id: Seq<char>,
)
    ensures
        ordered::lookup(forks, id) is Some ==> ordered::lookup(
            executor::ran(f, site, previous, forks, log).forks,
            id,
        ) is Some,
    decreases f, 0nat,
{
    broadcast use ordered::lemma_lookup_put;

    match f {
        FlowView::Sequence(s) => {
            lemma_steps_keep_forks(s.steps, site, previous, forks, log, id, s.steps.len());
        },
        _ => {},
    }
}

proof fn lemma_steps_keep_forks(
    steps: Seq<FlowView>,
    site: Seq<int>,
    previous: Option<Seq<char>>,
    forks: Seq<(Seq<char>, JsonView)>,
    log: Map<Seq<int>, Result<Seq<char>, Fault>>,
    id: Seq<char>,
    n: nat,
)
    requires
        n <= steps.len(),
    ensures
        ordered::lookup(forks, id) is Some ==> ordered::lookup(
            executor::ran_steps(steps, site, previous, forks, log, n).forks,
            id,
        ) is Some,
    decreases steps, n,
{
    if n > 0 {
        let before = executor::ran_steps(steps, site, previous, forks, log, (n - 1) as nat);
        lemma_steps_keep_forks(steps, site, previous, forks, log, id, (n - 1) as nat);
        match before.state {
            State::Done(output) => {
                lemma_forks_are_kept(
                    steps[n - 1],
                    site.push(n - 1),
                    if n == 1 {
                        previous
                    } else {
                        Some(executor::output_text(output))
                    },
                    before.forks,
                    log,
                    id,
                );
            },
            _ => {},
        }
    }
}

/// A sequence that came past a fork has its output ready for a join behind it.
pub proof fn lemma_joins_find_earlier_forks(
    steps: Seq<FlowView>,
    site: Seq<int>,
    previous: Option<Seq<char>>,
    forks: Seq<(Seq<char>, JsonView)>,
    log: Map<Seq<int>, Result<Seq<char>, Fault>>,
    id: Seq<char>,
    n: nat,
)
    requires
        n <= steps.len(),
        references::fork_steps(steps, n).contains(id),
        executor::ran_steps(steps, site, previous, forks, log, n).state is Done,
    ensures
        ordered::lookup(
            executor::ran_steps(steps, site, previous, forks, log, n).forks,
            id,
        ) is Some,
    decreases n,
{
    broadcast use ordered::lemma_lookup_put;

    if n > 0 {
        let m = (n - 1) as nat;
        let before = executor::ran_steps(steps, site, previous, forks, log, m);
        let earlier = references::fork_steps(steps, m);
        if earlier.contains(id) {
            lemma_joins_find_earlier_forks(steps, site, previous, forks, log, id, m);
            let output = before.state->Done_0;
            lemma_forks_are_kept(
                steps[n - 1],
                site.push(n - 1),
                if n == 1 {
                    previous
                } else {
                    Some(executor::output_text(output))
                },
                before.forks,
                log,
                id,
            );
        } else {
            let all = references::fork_steps(steps, n);
            let k = all.index_of(id);
            assert(all[k] == id);
            match steps[n - 1] {
                FlowView::Fork(f) => {
                    if k < earlier.len() {
                        assert(earlier[k] == id);
                    }
                    assert(f.id == id);
                    let run = executor::ran(
                        steps[n - 1],
                        site.push(n - 1),
                        if n == 1 {
                            previous
                        } else {
                            Some(executor::output_text(before.state->Done_0))
                        },
                        before.forks,
                        log,
                    );
                    assert(run.state is Done);
                },
                _ => {},
            }
        }
    }
}

} // verus!
