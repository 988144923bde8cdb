//! Reference integrity: ids are unique, and every join points at a fork that is
//! declared, in scope, and not already joined.

use vstd::prelude::*;
use vstd::string::*;
use crate::flow;
use crate::flow::{FlowSpec, FlowView, JoinMode, JoinSpec, JoinView, NodeKind};
use crate::normalize;
use crate::ordered;
use crate::ordered::SortedMap;
use crate::text;

verus! {

broadcast use vstd::string::group_string_axioms;

// ---------------------------------------------------------------------------
// Ids
// ---------------------------------------------------------------------------

/// What is said of an id that is used twice.
pub open spec fn duplicate_message(label: Seq<char>, id: Seq<char>, previous: NodeKind) -> Seq<
    char,
> {
    label + ".id duplicates \""@ + id + "\", already used by a "@ + previous.name() + " node."@
}

/// `ids` with the id of one node.
pub open spec fn with_id(f: FlowView, label: Seq<char>, ids: Seq<(Seq<char>, NodeKind)>) -> Result<
    Seq<(Seq<char>, NodeKind)>,
    Seq<char>,
> {
    match f.id() {
        None => Ok(ids),
        Some(id) => match ordered::lookup(ids, id) {
            Some(previous) => Err(duplicate_message(label, id, previous)),
            None => Ok(ordered::put(ids, id, f.kind())),
        },
    }
}

/// `ids` with the ids of a flow, node by node; the first duplicate where there
/// is one.
pub open spec fn with_ids(f: FlowView, label: Seq<char>, ids: Seq<(Seq<char>, NodeKind)>) -> Result<
    Seq<(Seq<char>, NodeKind)>,
    Seq<char>,
>
    decreases f, 0nat,
{
    match with_id(f, label, ids) {
        Err(message) => Err(message),
        Ok(ids) => match f {
            FlowView::Sequence(s) => with_step_ids(s.steps, label, ids, s.steps.len()),
            FlowView::Fork(k) => with_branch_ids(k.branches, label, ids, k.branches.len()),
            FlowView::Loop(l) => with_ids(*l.body, normalize::body_label(label), ids),
            _ => Ok(ids),
        },
    }
}

/// `ids` with the ids of the first `n` steps.
pub open spec fn with_step_ids(
    steps: Seq<FlowView>,
    label: Seq<char>,
    ids: Seq<(Seq<char>, NodeKind)>,
    n: nat,
) -> Result<Seq<(Seq<char>, NodeKind)>, Seq<char>>
    decreases steps, n,
{
    if n == 0 || n > steps.len() {
        Ok(ids)
    } else {
        match with_step_ids(steps, label, ids, (n - 1) as nat) {
            Err(message) => Err(message),
            Ok(ids) => with_ids(steps[n - 1], normalize::step_label(label, n - 1), ids),
        }
    }
}

/// `ids` with the ids of the first `n` branches.
pub open spec fn with_branch_ids(
    branches: Seq<(Seq<char>, FlowView)>,
    label: Seq<char>,
    ids: Seq<(Seq<char>, NodeKind)>,
    n: nat,
) -> Result<Seq<(Seq<char>, NodeKind)>, Seq<char>>
    decreases branches, n,
{
    if n == 0 || n > branches.len() {
        Ok(ids)
    } else {
        proof {
            assert(decreases_to!(branches => branches[n - 1]));
            assert(decreases_to!(branches[n - 1] => branches[n - 1].1));
        }
        match with_branch_ids(branches, label, ids, (n - 1) as nat) {
            Err(message) => Err(message),
            Ok(ids) => with_ids(
                branches[n - 1].1,
                normalize::branch_label(label, branches[n - 1].0),
                ids,
            ),
        }
    }
}

// ---------------------------------------------------------------------------
// Joins
// ---------------------------------------------------------------------------

/// The ids of the forks among the first `n` steps of a sequence.
pub open spec fn fork_steps(steps: Seq<FlowView>, n: nat) -> Seq<Seq<char>>
    decreases n,
{
    if n == 0 || n > steps.len() {
        Seq::empty()
    } else {
        match steps[n - 1] {
            FlowView::Fork(k) => fork_steps(steps, (n - 1) as nat).push(k.id),
            _ => fork_steps(steps, (n - 1) as nat),
        }
    }
}

/// `joined` with one join, which stands at `label` where the forks `visible` are
/// in scope.
pub open spec fn with_join(
    j: JoinView,
    label: Seq<char>,
    visible: Seq<Seq<char>>,
    ids: Seq<(Seq<char>, NodeKind)>,
    joined: Seq<(Seq<char>, Seq<char>)>,
) -> Result<Seq<(Seq<char>, Seq<char>)>, Seq<char>> {
    match ordered::lookup(ids, j.from) {
        None => Err(label + ".from references unknown fork \""@ + j.from + "\"."@),
        Some(kind) => if kind != NodeKind::Fork {
            Err(
                label + ".from must reference a fork node, but \""@ + j.from + "\" is a "@
                    + kind.name() + "."@,
            )
        } else if !visible.contains(j.from) {
            Err(label + ".from: fork \""@ + j.from + "\" is not in scope at this point."@)
        } else {
            match ordered::lookup(joined, j.from) {
                Some(previous) => Err(
                    label + ".from references fork \""@ + j.from + "\", already joined at "@
                        + previous + "."@,
                ),
                None => if j.mode == JoinMode::Quorum && j.quorum is None {
                    Err(label + ".quorum is required when mode=\"quorum\"."@)
                } else {
                    Ok(ordered::put(joined, j.from, label + ".from"@))
                },
            }
        },
    }
}

/// `joined` with the joins of a flow, one by one; the first that is not allowed
/// where there is one.
pub open spec fn with_joins(
    f: FlowView,
    label: Seq<char>,
    visible: Seq<Seq<char>>,
    ids: Seq<(Seq<char>, NodeKind)>,
    joined: Seq<(Seq<char>, Seq<char>)>,
) -> Result<Seq<(Seq<char>, Seq<char>)>, Seq<char>>
    decreases f, 0nat,
{
    match f {
        FlowView::Spawn(_) => Ok(joined),
        FlowView::Join(j) => with_join(j, label, visible, ids, joined),
        FlowView::Sequence(s) => with_step_joins(
            s.steps,
            label,
            visible,
            ids,
            joined,
            s.steps.len(),
        ),
        FlowView::Fork(k) => with_branch_joins(
            k.branches,
            label,
            visible,
            ids,
            joined,
            k.branches.len(),
        ),
        FlowView::Loop(l) => with_joins(
            *l.body,
            normalize::body_label(label),
            visible,
            ids,
            joined,
        ),
    }
}

/// `joined` with the joins of the first `n` steps. A fork is in scope for the
/// steps behind it.
pub open spec fn with_step_joins(
    steps: Seq<FlowView>,
    label: Seq<char>,
    visible: Seq<Seq<char>>,
    ids: Seq<(Seq<char>, NodeKind)>,
    joined: Seq<(Seq<char>, Seq<char>)>,
    n: nat,
) -> Result<Seq<(Seq<char>, Seq<char>)>, Seq<char>>
    decreases steps, n,
{
    if n == 0 || n > steps.len() {
        Ok(joined)
    } else {
        match with_step_joins(steps, label, visible, ids, joined, (n - 1) as nat) {
            Err(message) => Err(message),
            Ok(joined) => with_joins(
                steps[n - 1],
                normalize::step_label(label, n - 1),
                visible + fork_steps(steps, (n - 1) as nat),
                ids,
                joined,
            ),
        }
    }
}

/// `joined` with the joins of the first `n` branches.
pub open spec fn with_branch_joins(
    branches: Seq<(Seq<char>, FlowView)>,
    label: Seq<char>,
    visible: Seq<Seq<char>>,
    ids: Seq<(Seq<char>, NodeKind)>,
    joined: Seq<(Seq<char>, Seq<char>)>,
    n: nat,
) -> Result<Seq<(Seq<char>, Seq<char>)>, Seq<char>>
    decreases branches, n,
{
    if n == 0 || n > branches.len() {
        Ok(joined)
    } else {
        proof {
            assert(decreases_to!(branches => branches[n - 1]));
            assert(decreases_to!(branches[n - 1] => branches[n - 1].1));
        }
        match with_branch_joins(branches, label, visible, ids, joined, (n - 1) as nat) {
            Err(message) => Err(message),
            Ok(joined) => with_joins(
                branches[n - 1].1,
                normalize::branch_label(label, branches[n - 1].0),
                visible,
                ids,
                joined,
            ),
        }
    }
}

/// Whether the references of a flow are in order, and if not, what is wrong.
pub open spec fn checked(f: FlowView) -> Result<(), Seq<char>> {
    match with_ids(f, "flow"@, Seq::empty()) {
        Err(message) => Err(message),
        Ok(ids) => match with_joins(f, "flow"@, Seq::empty(), ids, Seq::empty()) {
            Err(message) => Err(message),
            Ok(_) => Ok(()),
        },
    }
}

// ---------------------------------------------------------------------------
// Executable check
// ---------------------------------------------------------------------------

/// The content of the places where forks are joined.
pub open spec fn places(joined: SortedMap<String>) -> Seq<(Seq<char>, Seq<char>)> {
    ordered::mapped(joined@, |place: String| place@)
}

/// The content of a list of texts.
pub open spec fn texts(list: Seq<String>) -> Seq<Seq<char>> {
    Seq::new(list.len(), |i: int| list[i]@)
}

fn step_at(label: &str, i: usize) -> (at: String)
    ensures
        at@ == normalize::step_label(label@, i as int),
{
    let mut at = text::join3(label, ".steps[", text::decimal(i as u64).as_str());
    at.append("]");
    at
}

fn branch_at(label: &str, key: &str) -> (at: String)
    ensures
        at@ == normalize::branch_label(label@, key@),
{
    text::join3(label, ".branches.", key)
}

/// The outcome of a pass over the ids agrees with what it should be.
pub open spec fn ids_agree(
    result: Result<(), String>,
    ids: SortedMap<NodeKind>,
    wanted: Result<Seq<(Seq<char>, NodeKind)>, Seq<char>>,
) -> bool {
    match result {
        Ok(_) => wanted == Ok::<Seq<(Seq<char>, NodeKind)>, Seq<char>>(ids@),
        Err(message) => wanted == Err::<Seq<(Seq<char>, NodeKind)>, Seq<char>>(message@),
    }
}

/// Collect the ids of a flow that stands at `label`.
pub fn collect_ids(spec: &FlowSpec, label: &str, ids: &mut SortedMap<NodeKind>) -> (result: Result<
    (),
    String,
>)
    ensures
        ids_agree(result, *final(ids), with_ids(spec@, label@, old(ids)@)),
    decreases spec@, 0nat,
{
    proof {
        spec.lemma_view();
    }
    let ghost before = ids@;
    match spec.id() {
        Some(id) => match ids.insert(id.to_owned(), spec.kind()) {
            Some(previous) => {
                let mut message = text::join3(label, ".id duplicates \"", id);
                message.append("\", already used by a ");
                message.append(previous.as_str());
                message.append(" node.");
                return Err(message);
            },
            None => {},
        },
        None => {},
    }
    assert(with_id(spec@, label@, before) == Ok::<Seq<(Seq<char>, NodeKind)>, Seq<char>>(ids@));
    let ghost start = ids@;
    match spec {
        FlowSpec::Sequence(s) => {
            let ghost all = spec@->Sequence_0.steps;
            let mut i: usize = 0;
            while i < s.steps.len()
                invariant
                    spec@ is Sequence,
                    all == spec@->Sequence_0.steps,
                    all == flow::flow_views(s.steps@),
                    i <= s.steps@.len(),
                    with_id(spec@, label@, old(ids)@) == Ok::<
                        Seq<(Seq<char>, NodeKind)>,
                        Seq<char>,
                    >(start),
                    with_step_ids(all, label@, start, i as nat) == Ok::<
                        Seq<(Seq<char>, NodeKind)>,
                        Seq<char>,
                    >(ids@),
                decreases s.steps@.len() - i,
            {
                proof {
                    assert(decreases_to!(spec@ => spec@->Sequence_0));
                    assert(decreases_to!(spec@->Sequence_0 => all));
                    assert(decreases_to!(all => all[i as int]));
                }
                let at = step_at(label, i);
                match collect_ids(&s.steps[i], at.as_str(), ids) {
                    Ok(_) => {},
                    Err(message) => {
                        proof {
                            lemma_step_ids_failure(all, label@, start, i as nat, all.len());
                        }
                        return Err(message);
                    },
                }
                i += 1;
            }
            Ok(())
        },
        FlowSpec::Fork(f) => {
            let ghost all = spec@->Fork_0.branches;
            let mut i: usize = 0;
            while i < f.branches.len()
                invariant
                    spec@ is Fork,
                    all == spec@->Fork_0.branches,
                    all == flow::branch_views(f.branches),
                    i <= f.branches@.len(),
                    with_id(spec@, label@, old(ids)@) == Ok::<
                        Seq<(Seq<char>, NodeKind)>,
                        Seq<char>,
                    >(start),
                    with_branch_ids(all, label@, start, i as nat) == Ok::<
                        Seq<(Seq<char>, NodeKind)>,
                        Seq<char>,
                    >(ids@),
                decreases f.branches@.len() - i,
            {
                proof {
                    assert(decreases_to!(spec@ => spec@->Fork_0));
                    assert(decreases_to!(spec@->Fork_0 => all));
                    assert(decreases_to!(all => all[i as int]));
                    assert(decreases_to!(all[i as int] => all[i as int].1));
                }
                let at = branch_at(label, f.branches.key_at(i).as_str());
                match collect_ids(f.branches.value_at(i), at.as_str(), ids) {
                    Ok(_) => {},
                    Err(message) => {
                        proof {
                            lemma_branch_ids_failure(all, label@, start, i as nat, all.len());
                        }
                        return Err(message);
                    },
                }
                i += 1;
            }
            Ok(())
        },
        FlowSpec::Loop(l) => {
            proof {
                assert(decreases_to!(spec@ => spec@->Loop_0));
                assert(decreases_to!(spec@->Loop_0 => spec@->Loop_0.body));
            }
            let at = text::join(label, ".body");
            collect_ids(&l.body, at.as_str(), ids)
        },
        FlowSpec::Spawn(_) => Ok(()),
        FlowSpec::Join(_) => Ok(()),
    }
}

/// The outcome of a pass over the joins agrees with what it should be.
pub open spec fn joins_agree(
    result: Result<(), String>,
    joined: SortedMap<String>,
    wanted: Result<Seq<(Seq<char>, Seq<char>)>, Seq<char>>,
) -> bool {
    match result {
        Ok(_) => wanted == Ok::<Seq<(Seq<char>, Seq<char>)>, Seq<char>>(places(joined)),
        Err(message) => wanted == Err::<Seq<(Seq<char>, Seq<char>)>, Seq<char>>(message@),
    }
}

fn holds_text(list: &Vec<String>, wanted: &String) -> (yes: bool)
    ensures
        yes == texts(list@).contains(wanted@),
{
    let mut i: usize = 0;
    while i < list.len()
        invariant
            i <= list@.len(),
            forall|j: int| 0 <= j < i ==> (#[trigger] texts(list@)[j]) != wanted@,
        decreases list@.len() - i,
    {
        if list[i] == *wanted {
            assert(texts(list@)[i as int] == wanted@);
            return true;
        }
        i += 1;
    }
    false
}

fn copied_list(list: &Vec<String>) -> (copy: Vec<String>)
    ensures
        texts(copy@) == texts(list@),
{
    let mut copy: Vec<String> = Vec::new();
    let mut i: usize = 0;
    while i < list.len()
        invariant
            i <= list@.len(),
            copy@.len() == i,
            forall|j: int| 0 <= j < i ==> (#[trigger] copy@[j])@ == list@[j]@,
        decreases list@.len() - i,
    {
        copy.push(list[i].clone());
        i += 1;
    }
    assert(texts(copy@) =~= texts(list@));
    copy
}

fn visit_join(
    j: &JoinSpec,
    label: &str,
    visible_forks: &Vec<String>,
    ids: &SortedMap<NodeKind>,
    joined: &mut SortedMap<String>,
) -> (result: Result<(), String>)
    ensures
        joins_agree(
            result,
            *final(joined),
            with_join(j@, label@, texts(visible_forks@), ids@, places(*old(joined))),
        ),
{
    let kind = match ids.get(j.from.as_str()) {
        Some(kind) => *kind,
        None => {
            let mut message = text::join3(
                label,
                ".from references unknown fork \"",
                j.from.as_str(),
            );
            message.append("\".");
            return Err(message);
        },
    };
    if kind != NodeKind::Fork {
        let mut message = text::join3(
            label,
            ".from must reference a fork node, but \"",
            j.from.as_str(),
        );
        message.append("\" is a ");
        message.append(kind.as_str());
        message.append(".");
        return Err(message);
    }
    if !holds_text(visible_forks, &j.from) {
        let mut message = text::join3(label, ".from: fork \"", j.from.as_str());
        message.append("\" is not in scope at this point.");
        return Err(message);
    }
    let here = text::join(label, ".from");
    proof {
        ordered::lemma_lookup_mapped(joined@, |place: String| place@, j.from@);
        ordered::lemma_put_mapped(joined@, |place: String| place@, j.from@, here);
    }
    match joined.insert(j.from.clone(), here) {
        Some(previous) => {
            let mut message = text::join3(label, ".from references fork \"", j.from.as_str());
            message.append("\", already joined at ");
            message.append(previous.as_str());
            message.append(".");
            return Err(message);
        },
        None => {},
    }
    if j.mode == JoinMode::Quorum && j.quorum.is_none() {
        return Err(text::join(label, ".quorum is required when mode=\"quorum\"."));
    }
    Ok(())
}

/// Check the joins of a flow that stands at `label`.
pub fn visit_refs(
    spec: &FlowSpec,
    label: &str,
    visible_forks: &Vec<String>,
    ids: &SortedMap<NodeKind>,
    joined: &mut SortedMap<String>,
) -> (result: Result<(), String>)
    ensures
        joins_agree(
            result,
            *final(joined),
            with_joins(spec@, label@, texts(visible_forks@), ids@, places(*old(joined))),
        ),
    decreases spec@, 0nat,
{
    proof {
        spec.lemma_view();
    }
    let ghost start = places(*joined);
    let ghost visible = texts(visible_forks@);
    match spec {
        FlowSpec::Spawn(_) => Ok(()),
        FlowSpec::Join(j) => visit_join(j, label, visible_forks, ids, joined),
        FlowSpec::Sequence(s) => {
            let ghost all = spec@->Sequence_0.steps;
            let mut local = copied_list(visible_forks);
            let mut i: usize = 0;
            assert(visible + fork_steps(all, 0) =~= visible);
            while i < s.steps.len()
                invariant
                    spec@ is Sequence,
                    all == spec@->Sequence_0.steps,
                    all == flow::flow_views(s.steps@),
                    i <= s.steps@.len(),
                    start == places(*old(joined)),
                    visible == texts(visible_forks@),
                    texts(local@) == visible + fork_steps(all, i as nat),
                    with_step_joins(all, label@, visible, ids@, start, i as nat) == Ok::<
                        Seq<(Seq<char>, Seq<char>)>,
                        Seq<char>,
                    >(places(*joined)),
                decreases s.steps@.len() - i,
            {
                proof {
                    assert(decreases_to!(spec@ => spec@->Sequence_0));
                    assert(decreases_to!(spec@->Sequence_0 => all));
                    assert(decreases_to!(all => all[i as int]));
                }
                let at = step_at(label, i);
                match visit_refs(&s.steps[i], at.as_str(), &local, ids, joined) {
                    Ok(_) => {},
                    Err(message) => {
                        proof {
                            lemma_step_joins_failure(
                                all,
                                label@,
                                visible,
                                ids@,
                                start,
                                i as nat,
                                all.len(),
                            );
                        }
                        return Err(message);
                    },
                }
                let ghost before = texts(local@);
                match &s.steps[i] {
                    FlowSpec::Fork(f) => {
                        local.push(f.id.clone());
                        assert(texts(local@) =~= before.push(f.id@));
                        assert(before.push(f.id@) =~= visible + fork_steps(all, (i + 1) as nat));
                    },
                    _ => {},
                }
                i += 1;
            }
            Ok(())
        },
        FlowSpec::Fork(f) => {
            let ghost all = spec@->Fork_0.branches;
            let mut i: usize = 0;
            while i < f.branches.len()
                invariant
                    spec@ is Fork,
                    all == spec@->Fork_0.branches,
                    all == flow::branch_views(f.branches),
                    i <= f.branches@.len(),
                    start == places(*old(joined)),
                    visible == texts(visible_forks@),
                    with_branch_joins(all, label@, visible, ids@, start, i as nat) == Ok::<
                        Seq<(Seq<char>, Seq<char>)>,
                        Seq<char>,
                    >(places(*joined)),
                decreases f.branches@.len() - i,
            {
                proof {
                    assert(decreases_to!(spec@ => spec@->Fork_0));
                    assert(decreases_to!(spec@->Fork_0 => all));
                    assert(decreases_to!(all => all[i as int]));
                    assert(decreases_to!(all[i as int] => all[i as int].1));
                }
                let at = branch_at(label, f.branches.key_at(i).as_str());
                match visit_refs(f.branches.value_at(i), at.as_str(), visible_forks, ids, joined) {
                    Ok(_) => {},
                    Err(message) => {
                        proof {
                            lemma_branch_joins_failure(
                                all,
                                label@,
                                visible,
                                ids@,
                                start,
                                i as nat,
                                all.len(),
                            );
                        }
                        return Err(message);
                    },
                }
                i += 1;
            }
            Ok(())
        },
        FlowSpec::Loop(l) => {
            proof {
                assert(decreases_to!(spec@ => spec@->Loop_0));
                assert(decreases_to!(spec@->Loop_0 => spec@->Loop_0.body));
            }
            let at = text::join(label, ".body");
            visit_refs(&l.body, at.as_str(), visible_forks, ids, joined)
        },
    }
}

/// Check the id references of a flow: every join points at a fork that is
/// declared, in scope, and not already joined.
pub fn validate_references(flow: &FlowSpec) -> (result: Result<(), String>)
    ensures
        match result {
            Ok(_) => checked(flow@) is Ok,
            Err(message) => checked(flow@) == Err::<(), Seq<char>>(message@),
        },
{
    let mut ids: SortedMap<NodeKind> = SortedMap::new();
    match collect_ids(flow, "flow", &mut ids) {
        Ok(_) => {},
        Err(message) => return Err(message),
    }
    let mut joined: SortedMap<String> = SortedMap::new();
    let visible: Vec<String> = Vec::new();
    assert(places(joined) =~= Seq::empty());
    assert(texts(visible@) =~= Seq::empty());
    visit_refs(flow, "flow", &visible, &ids, &mut joined)
}

proof fn lemma_step_ids_failure(
    steps: Seq<FlowView>,
    label: Seq<char>,
    ids: Seq<(Seq<char>, NodeKind)>,
    i: nat,
    n: nat,
)
    requires
        i < n <= steps.len(),
        with_step_ids(steps, label, ids, i + 1) is Err,
    ensures
        with_step_ids(steps, label, ids, n) == with_step_ids(steps, label, ids, i + 1),
    decreases n,
{
    if n > i + 1 {
        lemma_step_ids_failure(steps, label, ids, i, (n - 1) as nat);
    }
}

proof fn lemma_branch_ids_failure(
    branches: Seq<(Seq<char>, FlowView)>,
    label: Seq<char>,
    ids: Seq<(Seq<char>, NodeKind)>,
    i: nat,
    n: nat,
)
    requires
        i < n <= branches.len(),
        with_branch_ids(branches, label, ids, i + 1) is Err,
    ensures
        with_branch_ids(branches, label, ids, n) == with_branch_ids(branches, label, ids, i + 1),
    decreases n,
{
    if n > i + 1 {
        lemma_branch_ids_failure(branches, label, ids, i, (n - 1) as nat);
    }
}

proof fn lemma_step_joins_failure(
    steps: Seq<FlowView>,
    label: Seq<char>,
    visible: Seq<Seq<char>>,
    ids: Seq<(Seq<char>, NodeKind)>,
    joined: Seq<(Seq<char>, Seq<char>)>,
    i: nat,
    n: nat,
)
    requires
        i < n <= steps.len(),
        with_step_joins(steps, label, visible, ids, joined, i + 1) is Err,
    ensures
        with_step_joins(steps, label, visible, ids, joined, n) == with_step_joins(
            steps,
            label,
            visible,
            ids,
            joined,
            i + 1,
        ),
    decreases n,
{
    if n > i + 1 {
        lemma_step_joins_failure(steps, label, visible, ids, joined, i, (n - 1) as nat);
    }
}

proof fn lemma_branch_joins_failure(
    branches: Seq<(Seq<char>, FlowView)>,
    label: Seq<char>,
    visible: Seq<Seq<char>>,
    ids: Seq<(Seq<char>, NodeKind)>,
    joined: Seq<(Seq<char>, Seq<char>)>,
    i: nat,
    n: nat,
)
    requires
        i < n <= branches.len(),
        with_branch_joins(branches, label, visible, ids, joined, i + 1) is Err,
    ensures
        with_branch_joins(branches, label, visible, ids, joined, n) == with_branch_joins(
            branches,
            label,
            visible,
            ids,
            joined,
            i + 1,
        ),
    decreases n,
{
    if n > i + 1 {
        lemma_branch_joins_failure(branches, label, visible, ids, joined, i, (n - 1) as nat);
    }
}

// ---------------------------------------------------------------------------
// What it means that the references are in order
// ---------------------------------------------------------------------------

/// The named nodes of a flow, in the order in which they are met: where each
/// stands, its id and its kind.
pub open spec fn named(f: FlowView, label: Seq<char>) -> Seq<(Seq<char>, Seq<char>, NodeKind)>
    decreases f, 0nat,
{
    let own = match f.id() {
        Some(id) => seq![(label, id, f.kind())],
        None => Seq::empty(),
    };
    match f {
        FlowView::Sequence(s) => own + named_steps(s.steps, label, s.steps.len()),
        FlowView::Fork(k) => own + named_branches(k.branches, label, k.branches.len()),
        FlowView::Loop(l) => own + named(*l.body, normalize::body_label(label)),
        _ => own,
    }
}

/// The named nodes of the first `n` steps.
pub open spec fn named_steps(steps: Seq<FlowView>, label: Seq<char>, n: nat) -> Seq<
    (Seq<char>, Seq<char>, NodeKind),
>
    decreases steps, n,
{
    if n == 0 || n > steps.len() {
        Seq::empty()
    } else {
        named_steps(steps, label, (n - 1) as nat) + named(
            steps[n - 1],
            normalize::step_label(label, n - 1),
        )
    }
}

/// The named nodes of the first `n` branches.
pub open spec fn named_branches(
    branches: Seq<(Seq<char>, FlowView)>,
    label: Seq<char>,
    n: nat,
) -> Seq<(Seq<char>, Seq<char>, NodeKind)>
    decreases branches, n,
{
    if n == 0 || n > branches.len() {
        Seq::empty()
    } else {
        proof {
            assert(decreases_to!(branches => branches[n - 1]));
            assert(decreases_to!(branches[n - 1] => branches[n - 1].1));
        }
        named_branches(branches, label, (n - 1) as nat) + named(
            branches[n - 1].1,
            normalize::branch_label(label, branches[n - 1].0),
        )
    }
}

/// The joins of a flow, in the order in which they are met: where each stands,
/// the join, and the forks in scope there.
pub open spec fn placed(f: FlowView, label: Seq<char>, visible: Seq<Seq<char>>) -> Seq<
    (Seq<char>, JoinView, Seq<Seq<char>>),
>
    decreases f, 0nat,
{
    match f {
        FlowView::Spawn(_) => Seq::empty(),
        FlowView::Join(j) => seq![(label, j, visible)],
        FlowView::Sequence(s) => placed_steps(s.steps, label, visible, s.steps.len()),
        FlowView::Fork(k) => placed_branches(k.branches, label, visible, k.branches.len()),
        FlowView::Loop(l) => placed(*l.body, normalize::body_label(label), visible),
    }
}

/// The joins of the first `n` steps. A fork is in scope for the steps behind it.
pub open spec fn placed_steps(
    steps: Seq<FlowView>,
    label: Seq<char>,
    visible: Seq<Seq<char>>,
    n: nat,
) -> Seq<(Seq<char>, JoinView, Seq<Seq<char>>)>
    decreases steps, n,
{
    if n == 0 || n > steps.len() {
        Seq::empty()
    } else {
        placed_steps(steps, label, visible, (n - 1) as nat) + placed(
            steps[n - 1],
            normalize::step_label(label, n - 1),
            visible + fork_steps(steps, (n - 1) as nat),
        )
    }
}

/// The joins of the first `n` branches.
pub open spec fn placed_branches(
    branches: Seq<(Seq<char>, FlowView)>,
    label: Seq<char>,
    visible: Seq<Seq<char>>,
    n: nat,
) -> Seq<(Seq<char>, JoinView, Seq<Seq<char>>)>
    decreases branches, n,
{
    if n == 0 || n > branches.len() {
        Seq::empty()
    } else {
        proof {
            assert(decreases_to!(branches => branches[n - 1]));
            assert(decreases_to!(branches[n - 1] => branches[n - 1].1));
        }
        placed_branches(branches, label, visible, (n - 1) as nat) + placed(
            branches[n - 1].1,
            normalize::branch_label(label, branches[n - 1].0),
            visible,
        )
    }
}

/// Some node of the list has that id and that kind.
pub open spec fn listed(
    nodes: Seq<(Seq<char>, Seq<char>, NodeKind)>,
    id: Seq<char>,
    kind: NodeKind,
) -> bool {
    exists|i: int| 0 <= i < nodes.len() && (#[trigger] nodes[i]).1 == id && nodes[i].2 == kind
}

/// The references of a flow are in order: no id is used twice; every join points
/// at a fork that is declared and in scope, and gives a quorum if it needs one;
/// no fork is joined twice.
pub open spec fn in_order(f: FlowView) -> bool {
    let nodes = named(f, "flow"@);
    let joins = placed(f, "flow"@, Seq::empty());
    &&& forall|i: int, j: int|
        0 <= i < j < nodes.len() ==> (#[trigger] nodes[i]).1 != (#[trigger] nodes[j]).1
    &&& forall|i: int|
        0 <= i < joins.len() ==> {
            let (_, join, visible) = #[trigger] joins[i];
            &&& listed(nodes, join.from, NodeKind::Fork)
            &&& visible.contains(join.from)
            &&& join.mode == JoinMode::Quorum ==> join.quorum is Some
        }
    &&& forall|i: int, j: int|
        0 <= i < j < joins.len() ==> (#[trigger] joins[i]).1.from != (#[trigger] joins[j]).1.from
}

/// A flow passes the check exactly when its references are in order.
pub proof fn lemma_checked_flows_are_in_order(f: FlowView)
    ensures
        checked(f) is Ok <==> in_order(f),
{
    let nodes = named(f, "flow"@);
    let joins = placed(f, "flow"@, Seq::empty());
    let none = Seq::<(Seq<char>, NodeKind)>::empty();
    lemma_ids_in_turn(f, "flow"@, none);
    lemma_listed_ids(nodes, none);
    match with_ids(f, "flow"@, none) {
        Ok(ids) => {
            lemma_joins_in_turn(f, "flow"@, Seq::empty(), ids, Seq::empty());
            lemma_listed_joins(joins, ids, Seq::empty());
            assert forall|i: int| 0 <= i < joins.len() implies listed(
                nodes,
                (#[trigger] joins[i]).1.from,
                NodeKind::Fork,
            ) == (ordered::lookup(ids, joins[i].1.from) == Some(NodeKind::Fork)) by {
                lemma_listed_lookup(nodes, none, joins[i].1.from, NodeKind::Fork);
            }
        },
        Err(_) => {},
    }
}

/// `ids` with the ids of a list of nodes, one after the other.
spec fn with_listed_ids(
    nodes: Seq<(Seq<char>, Seq<char>, NodeKind)>,
    ids: Seq<(Seq<char>, NodeKind)>,
) -> Result<Seq<(Seq<char>, NodeKind)>, Seq<char>>
    decreases nodes.len(),
{
    if nodes.len() == 0 {
        Ok(ids)
    } else {
        match ordered::lookup(ids, nodes[0].1) {
            Some(previous) => Err(duplicate_message(nodes[0].0, nodes[0].1, previous)),
            None => with_listed_ids(
                nodes.drop_first(),
                ordered::put(ids, nodes[0].1, nodes[0].2),
            ),
        }
    }
}

proof fn lemma_listed_ids_split(
    a: Seq<(Seq<char>, Seq<char>, NodeKind)>,
    b: Seq<(Seq<char>, Seq<char>, NodeKind)>,
    ids: Seq<(Seq<char>, NodeKind)>,
)
    ensures
        with_listed_ids(a + b, ids) == match with_listed_ids(a, ids) {
            Ok(ids) => with_listed_ids(b, ids),
            Err(message) => Err(message),
        },
    decreases a.len(),
{
    if a.len() == 0 {
        assert(a + b =~= b);
    } else {
        assert((a + b).drop_first() =~= a.drop_first() + b);
        if ordered::lookup(ids, a[0].1) is None {
            lemma_listed_ids_split(a.drop_first(), b, ordered::put(ids, a[0].1, a[0].2));
        }
    }
}

proof fn lemma_ids_in_turn(f: FlowView, label: Seq<char>, ids: Seq<(Seq<char>, NodeKind)>)
    ensures
        with_ids(f, label, ids) == with_listed_ids(named(f, label), ids),
    decreases f, 0nat,
{
    reveal_with_fuel(with_listed_ids, 2);
    let own = match f.id() {
        Some(id) => seq![(label, id, f.kind())],
        None => Seq::empty(),
    };
    assert(own.len() > 0 ==> own.drop_first() =~= Seq::empty());
    assert(with_listed_ids(own, ids) == with_id(f, label, ids));
    match f {
        FlowView::Sequence(s) => {
            let rest = named_steps(s.steps, label, s.steps.len());
            lemma_listed_ids_split(own, rest, ids);
            match with_id(f, label, ids) {
                Ok(ids) => lemma_step_ids_in_turn(s.steps, label, ids, s.steps.len()),
                Err(_) => {},
            }
        },
        FlowView::Fork(k) => {
            let rest = named_branches(k.branches, label, k.branches.len());
            lemma_listed_ids_split(own, rest, ids);
            match with_id(f, label, ids) {
                Ok(ids) => lemma_branch_ids_in_turn(k.branches, label, ids, k.branches.len()),
                Err(_) => {},
            }
        },
        FlowView::Loop(l) => {
            let at = normalize::body_label(label);
            lemma_listed_ids_split(own, named(*l.body, at), ids);
            match with_id(f, label, ids) {
                Ok(ids) => lemma_ids_in_turn(*l.body, at, ids),
                Err(_) => {},
            }
        },
        _ => {},
    }
}

proof fn lemma_step_ids_in_turn(
    steps: Seq<FlowView>,
    label: Seq<char>,
    ids: Seq<(Seq<char>, NodeKind)>,
    n: nat,
)
    requires
        n <= steps.len(),
    ensures
        with_step_ids(steps, label, ids, n) == with_listed_ids(named_steps(steps, label, n), ids),
    decreases steps, n,
{
    if n > 0 {
        let before = named_steps(steps, label, (n - 1) as nat);
        let at = normalize::step_label(label, n - 1);
        lemma_step_ids_in_turn(steps, label, ids, (n - 1) as nat);
        lemma_listed_ids_split(before, named(steps[n - 1], at), ids);
        match with_listed_ids(before, ids) {
            Ok(ids) => lemma_ids_in_turn(steps[n - 1], at, ids),
            Err(_) => {},
        }
    }
}

proof fn lemma_branch_ids_in_turn(
    branches: Seq<(Seq<char>, FlowView)>,
    label: Seq<char>,
    ids: Seq<(Seq<char>, NodeKind)>,
    n: nat,
)
    requires
        n <= branches.len(),
    ensures
        with_branch_ids(branches, label, ids, n) == with_listed_ids(
            named_branches(branches, label, n),
            ids,
        ),
    decreases branches, n,
{
    if n > 0 {
        let before = named_branches(branches, label, (n - 1) as nat);
        let at = normalize::branch_label(label, branches[n - 1].0);
        assert(decreases_to!(branches => branches[n - 1]));
        assert(decreases_to!(branches[n - 1] => branches[n - 1].1));
        lemma_branch_ids_in_turn(branches, label, ids, (n - 1) as nat);
        lemma_listed_ids_split(before, named(branches[n - 1].1, at), ids);
        match with_listed_ids(before, ids) {
            Ok(ids) => lemma_ids_in_turn(branches[n - 1].1, at, ids),
            Err(_) => {},
        }
    }
}

/// Listing succeeds exactly when no id occurs twice.
proof fn lemma_listed_ids(
    nodes: Seq<(Seq<char>, Seq<char>, NodeKind)>,
    ids: Seq<(Seq<char>, NodeKind)>,
)
    ensures
        with_listed_ids(nodes, ids) is Ok <==> {
            &&& forall|i: int|
                0 <= i < nodes.len() ==> ordered::lookup(ids, (#[trigger] nodes[i]).1) is None
            &&& forall|i: int, j: int|
                0 <= i < j < nodes.len() ==> (#[trigger] nodes[i]).1 != (#[trigger] nodes[j]).1
        },
    decreases nodes.len(),
{
    broadcast use ordered::lemma_lookup_put;

    if nodes.len() > 0 {
        let rest = nodes.drop_first();
        assert(forall|i: int| 0 <= i < rest.len() ==> rest[i] == #[trigger] nodes[i + 1]);
        match ordered::lookup(ids, nodes[0].1) {
            Some(_) => {},
            None => {
                let next = ordered::put(ids, nodes[0].1, nodes[0].2);
                lemma_listed_ids(rest, next);
                let fresh = forall|i: int|
                    0 <= i < nodes.len() ==> ordered::lookup(ids, (#[trigger] nodes[i]).1) is None;
                let distinct = forall|i: int, j: int|
                    0 <= i < j < nodes.len() ==> (#[trigger] nodes[i]).1 != (
                    #[trigger] nodes[j]).1;
                if fresh && distinct {
                    assert forall|i: int| 0 <= i < rest.len() implies ordered::lookup(
                        next,
                        (#[trigger] rest[i]).1,
                    ) is None by {
                        assert(rest[i] == nodes[i + 1]);
                        assert(nodes[0].1 != nodes[i + 1].1);
                    }
                    assert forall|i: int, j: int| 0 <= i < j < rest.len() implies (
                    #[trigger] rest[i]).1 != (#[trigger] rest[j]).1 by {
                        assert(rest[i] == nodes[i + 1] && rest[j] == nodes[j + 1]);
                    }
                }
                if with_listed_ids(nodes, ids) is Ok {
                    assert forall|i: int| 0 <= i < nodes.len() implies ordered::lookup(
                        ids,
                        (#[trigger] nodes[i]).1,
                    ) is None by {
                        if i > 0 {
                            assert(nodes[i] == rest[i - 1]);
                        }
                    }
                    assert forall|i: int, j: int| 0 <= i < j < nodes.len() implies (
                    #[trigger] nodes[i]).1 != (#[trigger] nodes[j]).1 by {
                        assert(nodes[j] == rest[j - 1]);
                        if i > 0 {
                            assert(nodes[i] == rest[i - 1]);
                        }
                    }
                }
            },
        }
    }
}

/// A successful listing holds what was there and what was listed.
proof fn lemma_listed_lookup(
    nodes: Seq<(Seq<char>, Seq<char>, NodeKind)>,
    ids: Seq<(Seq<char>, NodeKind)>,
    id: Seq<char>,
    kind: NodeKind,
)
    ensures
        with_listed_ids(nodes, ids) matches Ok(after) ==> (ordered::lookup(after, id) == Some(kind)
            <==> ordered::lookup(ids, id) == Some(kind) || listed(nodes, id, kind)),
    decreases nodes.len(),
{
    broadcast use ordered::lemma_lookup_put;

    if nodes.len() > 0 && ordered::lookup(ids, nodes[0].1) is None {
        let rest = nodes.drop_first();
        lemma_listed_lookup(rest, ordered::put(ids, nodes[0].1, nodes[0].2), id, kind);
        if with_listed_ids(nodes, ids) is Ok {
            lemma_listed_ids(nodes, ids);
        }
        if listed(nodes, id, kind) {
            let k = choose|k: int|
                0 <= k < nodes.len() && (#[trigger] nodes[k]).1 == id && nodes[k].2 == kind;
            if k > 0 {
                assert(rest[k - 1] == nodes[k]);
            }
        }
        if listed(rest, id, kind) {
            let k = choose|k: int|
                0 <= k < rest.len() && (#[trigger] rest[k]).1 == id && rest[k].2 == kind;
            assert(nodes[k + 1] == rest[k]);
        }
        assert(nodes[0] == nodes[0]);
    }
}

/// `joined` with a list of joins, one after the other.
spec fn with_listed_joins(
    joins: Seq<(Seq<char>, JoinView, Seq<Seq<char>>)>,
    ids: Seq<(Seq<char>, NodeKind)>,
    joined: Seq<(Seq<char>, Seq<char>)>,
) -> Result<Seq<(Seq<char>, Seq<char>)>, Seq<char>>
    decreases joins.len(),
{
    if joins.len() == 0 {
        Ok(joined)
    } else {
        match with_join(joins[0].1, joins[0].0, joins[0].2, ids, joined) {
            Err(message) => Err(message),
            Ok(joined) => with_listed_joins(joins.drop_first(), ids, joined),
        }
    }
}

proof fn lemma_listed_joins_split(
    a: Seq<(Seq<char>, JoinView, Seq<Seq<char>>)>,
    b: Seq<(Seq<char>, JoinView, Seq<Seq<char>>)>,
    ids: Seq<(Seq<char>, NodeKind)>,
    joined: Seq<(Seq<char>, Seq<char>)>,
)
    ensures
        with_listed_joins(a + b, ids, joined) == match with_listed_joins(a, ids, joined) {
            Ok(joined) => with_listed_joins(b, ids, joined),
            Err(message) => Err(message),
        },
    decreases a.len(),
{
    if a.len() == 0 {
        assert(a + b =~= b);
    } else {
        assert((a + b).drop_first() =~= a.drop_first() + b);
        match with_join(a[0].1, a[0].0, a[0].2, ids, joined) {
            Ok(joined) => lemma_listed_joins_split(a.drop_first(), b, ids, joined),
            Err(_) => {},
        }
    }
}

proof fn lemma_joins_in_turn(
    f: FlowView,
    label: Seq<char>,
    visible: Seq<Seq<char>>,
    ids: Seq<(Seq<char>, NodeKind)>,
    joined: Seq<(Seq<char>, Seq<char>)>,
)
    ensures
        with_joins(f, label, visible, ids, joined) == with_listed_joins(
            placed(f, label, visible),
            ids,
            joined,
        ),
    decreases f, 0nat,
{
    match f {
        FlowView::Spawn(_) => {},
        FlowView::Join(j) => {
            reveal_with_fuel(with_listed_joins, 2);
            assert(seq![(label, j, visible)].drop_first() =~= Seq::empty());
        },
        FlowView::Sequence(s) => {
            lemma_step_joins_in_turn(s.steps, label, visible, ids, joined, s.steps.len());
        },
        FlowView::Fork(k) => {
            lemma_branch_joins_in_turn(
                k.branches,
                label,
                visible,
                ids,
                joined,
                k.branches.len(),
            );
        },
        FlowView::Loop(l) => {
            lemma_joins_in_turn(*l.body, normalize::body_label(label), visible, ids, joined);
        },
    }
}

proof fn lemma_step_joins_in_turn(
    steps: Seq<FlowView>,
    label: Seq<char>,
    visible: Seq<Seq<char>>,
    ids: Seq<(Seq<char>, NodeKind)>,
    joined: Seq<(Seq<char>, Seq<char>)>,
    n: nat,
)
    requires
        n <= steps.len(),
    ensures
        with_step_joins(steps, label, visible, ids, joined, n) == with_listed_joins(
            placed_steps(steps, label, visible, n),
            ids,
            joined,
        ),
    decreases steps, n,
{
    if n > 0 {
        let before = placed_steps(steps, label, visible, (n - 1) as nat);
        let at = normalize::step_label(label, n - 1);
        let local = visible + fork_steps(steps, (n - 1) as nat);
        lemma_step_joins_in_turn(steps, label, visible, ids, joined, (n - 1) as nat);
        lemma_listed_joins_split(before, placed(steps[n - 1], at, local), ids, joined);
        match with_listed_joins(before, ids, joined) {
            Ok(joined) => lemma_joins_in_turn(steps[n - 1], at, local, ids, joined),
            Err(_) => {},
        }
    }
}

proof fn lemma_branch_joins_in_turn(
    branches: Seq<(Seq<char>, FlowView)>,
    label: Seq<char>,
    visible: Seq<Seq<char>>,
    ids: Seq<(Seq<char>, NodeKind)>,
    joined: Seq<(Seq<char>, Seq<char>)>,
    n: nat,
)
    requires
        n <= branches.len(),
    ensures
        with_branch_joins(branches, label, visible, ids, joined, n) == with_listed_joins(
            placed_branches(branches, label, visible, n),
            ids,
            joined,
        ),
    decreases branches, n,
{
    if n > 0 {
        let before = placed_branches(branches, label, visible, (n - 1) as nat);
        let at = normalize::branch_label(label, branches[n - 1].0);
        assert(decreases_to!(branches => branches[n - 1]));
        assert(decreases_to!(branches[n - 1] => branches[n - 1].1));
        lemma_branch_joins_in_turn(branches, label, visible, ids, joined, (n - 1) as nat);
        lemma_listed_joins_split(before, placed(branches[n - 1].1, at, visible), ids, joined);
        match with_listed_joins(before, ids, joined) {
            Ok(joined) => lemma_joins_in_turn(branches[n - 1].1, at, visible, ids, joined),
            Err(_) => {},
        }
    }
}

/// A join that may stand where it stands, no other join aside.
spec fn allowed(join: (Seq<char>, JoinView, Seq<Seq<char>>), ids: Seq<(Seq<char>, NodeKind)>) -> bool {
    &&& ordered::lookup(ids, join.1.from) == Some(NodeKind::Fork)
    &&& join.2.contains(join.1.from)
    &&& join.1.mode == JoinMode::Quorum ==> join.1.quorum is Some
}

/// Listing succeeds exactly when every join is allowed and no fork is joined
/// twice.
proof fn lemma_listed_joins(
    joins: Seq<(Seq<char>, JoinView, Seq<Seq<char>>)>,
    ids: Seq<(Seq<char>, NodeKind)>,
    joined: Seq<(Seq<char>, Seq<char>)>,
)
    ensures
        with_listed_joins(joins, ids, joined) is Ok <==> {
            &&& forall|i: int|
                0 <= i < joins.len() ==> allowed(#[trigger] joins[i], ids) && ordered::lookup(
                    joined,
                    joins[i].1.from,
                ) is None
            &&& forall|i: int, j: int|
                0 <= i < j < joins.len() ==> (#[trigger] joins[i]).1.from != (
                #[trigger] joins[j]).1.from
        },
    decreases joins.len(),
{
    broadcast use ordered::lemma_lookup_put;

    if joins.len() > 0 {
        let rest = joins.drop_first();
        assert(forall|i: int| 0 <= i < rest.len() ==> rest[i] == #[trigger] joins[i + 1]);
        match with_join(joins[0].1, joins[0].0, joins[0].2, ids, joined) {
            Err(_) => {
                assert(!(allowed(joins[0], ids) && ordered::lookup(
                    joined,
                    joins[0].1.from,
                ) is None));
            },
            Ok(next) => {
                lemma_listed_joins(rest, ids, next);
                if with_listed_joins(joins, ids, joined) is Ok {
                    assert forall|i: int| 0 <= i < joins.len() implies allowed(
                        #[trigger] joins[i],
                        ids,
                    ) && ordered::lookup(joined, joins[i].1.from) is None by {
                        if i > 0 {
                            assert(joins[i] == rest[i - 1]);
                        }
                    }
                    assert forall|i: int, j: int| 0 <= i < j < joins.len() implies (
                    #[trigger] joins[i]).1.from != (#[trigger] joins[j]).1.from by {
                        assert(joins[j] == rest[j - 1]);
                        if i > 0 {
                            assert(joins[i] == rest[i - 1]);
                        }
                    }
                } else {
                    let bad = !(forall|i: int|
                        0 <= i < rest.len() ==> allowed(#[trigger] rest[i], ids)
                            && ordered::lookup(next, rest[i].1.from) is None);
                    if bad {
                        let i = choose|i: int|
                            0 <= i < rest.len() && !(allowed(#[trigger] rest[i], ids)
                                && ordered::lookup(next, rest[i].1.from) is None);
                        assert(rest[i] == joins[i + 1]);
                        assert(joins[0].1.from == joins[0].1.from);
                    } else {
                        let (i, j) = choose|i: int, j: int|
                            0 <= i < j < rest.len() && (#[trigger] rest[i]).1.from == (
                            #[trigger] rest[j]).1.from;
                        assert(rest[i] == joins[i + 1] && rest[j] == joins[j + 1]);
                    }
                }
            },
        }
    }
}

// ---------------------------------------------------------------------------
// What is reported
// ---------------------------------------------------------------------------

/// The node at position `j` is the first whose id an earlier one has, and the message names
/// it, the id, and the kind of the earlier one.
pub open spec fn reports_duplicate(
    nodes: Seq<(Seq<char>, Seq<char>, NodeKind)>,
    message: Seq<char>,
    i: int,
    j: int,
) -> bool {
    &&& 0 <= i < j < nodes.len()
    &&& nodes[i].1 == nodes[j].1
    &&& forall|a: int, b: int|
        0 <= a < b < j ==> (#[trigger] nodes[a]).1 != (#[trigger] nodes[b]).1
    &&& message == duplicate_message(nodes[j].0, nodes[j].1, nodes[i].2)
}

/// Ids that occur twice are reported at the first node that repeats one.
pub proof fn lemma_duplicates_are_reported(f: FlowView)
    ensures
        with_ids(f, "flow"@, Seq::empty()) matches Err(message) ==> exists|i: int, j: int|
            reports_duplicate(named(f, "flow"@), message, i, j),
{
    let nodes = named(f, "flow"@);
    lemma_ids_in_turn(f, "flow"@, Seq::empty());
    lemma_duplicates_in_turn(nodes, nodes.len());
    assert(nodes.take(nodes.len() as int) =~= nodes);
}

proof fn lemma_duplicates_in_turn(nodes: Seq<(Seq<char>, Seq<char>, NodeKind)>, n: nat)
    requires
        n <= nodes.len(),
    ensures
        with_listed_ids(nodes.take(n as int), Seq::empty()) matches Err(message) ==> exists|
            i: int,
            j: int,
        |
            reports_duplicate(nodes, message, i, j),
    decreases n,
{
    reveal_with_fuel(with_listed_ids, 2);
    if n == 0 {
        assert(with_listed_ids(nodes.take(0), Seq::empty()) is Ok);
    }
    if n > 0 {
        let before = nodes.take(n - 1);
        let last = nodes[n - 1];
        lemma_duplicates_in_turn(nodes, (n - 1) as nat);
        assert(nodes.take(n as int) =~= before + seq![last]);
        lemma_listed_ids_split(before, seq![last], Seq::empty());
        assert(seq![last].drop_first() =~= Seq::empty());
        let whole = with_listed_ids(nodes.take(n as int), Seq::empty());
        assert(whole == with_listed_ids(before + seq![last], Seq::empty()));
        match with_listed_ids(before, Seq::empty()) {
            Ok(ids) => {
                let one = with_listed_ids(seq![last], ids);
                assert(seq![last][0] == last);
                match ordered::lookup(ids, last.1) {
                    Some(kind) => {
                        assert(one == Err::<Seq<(Seq<char>, NodeKind)>, Seq<char>>(
                            duplicate_message(last.0, last.1, kind),
                        ));
                        lemma_listed_ids(before, Seq::empty());
                        lemma_listed_lookup(before, Seq::empty(), last.1, kind);
                        let i = choose|i: int|
                            0 <= i < before.len() && (#[trigger] before[i]).1 == last.1
                                && before[i].2 == kind;
                        assert(nodes[i] == before[i]);
                        assert forall|a: int, b: int| 0 <= a < b < n - 1 implies (
                        #[trigger] nodes[a]).1 != (#[trigger] nodes[b]).1 by {
                            assert(before[a] == nodes[a] && before[b] == nodes[b]);
                        }
                        assert(reports_duplicate(
                            nodes,
                            duplicate_message(last.0, last.1, kind),
                            i,
                            n - 1,
                        ));
                        assert(whole == one);
                    },
                    None => {
                        assert(one is Ok);
                        assert(whole is Ok);
                    },
                }
            },
            Err(message) => {
                assert(whole == Err::<Seq<(Seq<char>, NodeKind)>, Seq<char>>(message));
                assert(exists|i: int, j: int| reports_duplicate(nodes, message, i, j));
            },
        }
        match whole {
            Err(message) => {
                assert(exists|i: int, j: int| reports_duplicate(nodes, message, i, j));
            },
            Ok(_) => {},
        }
    }
}

/// The join at position `j` is one that may not stand there, and the message is what is
/// said of it; `joined` holds the joins before it, by their forks.
pub open spec fn reports_join(
    joins: Seq<(Seq<char>, JoinView, Seq<Seq<char>>)>,
    ids: Seq<(Seq<char>, NodeKind)>,
    message: Seq<char>,
    j: int,
    joined: Seq<(Seq<char>, Seq<char>)>,
) -> bool {
    &&& 0 <= j < joins.len()
    &&& with_join(joins[j].1, joins[j].0, joins[j].2, ids, joined) == Err::<
        Seq<(Seq<char>, Seq<char>)>,
        Seq<char>,
    >(message)
    &&& ordered::lookup(joined, joins[j].1.from) matches Some(place) ==> exists|i: int|
        0 <= i < j && (#[trigger] joins[i]).1.from == joins[j].1.from && place == joins[i].0
            + ".from"@
}

/// Of joins that may not stand where they stand, the first is reported.
pub proof fn lemma_joins_are_reported(f: FlowView, ids: Seq<(Seq<char>, NodeKind)>)
    ensures
        with_joins(f, "flow"@, Seq::empty(), ids, Seq::empty()) matches Err(message) ==> exists|
            j: int,
            joined: Seq<(Seq<char>, Seq<char>)>,
        |
            reports_join(placed(f, "flow"@, Seq::empty()), ids, message, j, joined),
{
    let joins = placed(f, "flow"@, Seq::empty());
    lemma_joins_in_turn(f, "flow"@, Seq::empty(), ids, Seq::empty());
    lemma_reports_in_turn(joins, ids, joins.len());
    assert(joins.take(joins.len() as int) =~= joins);
}

proof fn lemma_reports_in_turn(
    joins: Seq<(Seq<char>, JoinView, Seq<Seq<char>>)>,
    ids: Seq<(Seq<char>, NodeKind)>,
    n: nat,
)
    requires
        n <= joins.len(),
    ensures
        match with_listed_joins(joins.take(n as int), ids, Seq::empty()) {
            Err(message) => exists|j: int, joined: Seq<(Seq<char>, Seq<char>)>|
                reports_join(joins, ids, message, j, joined),
            Ok(joined) => forall|id: Seq<char>|
                (#[trigger] ordered::lookup(joined, id)) matches Some(place) ==> exists|i: int|
                    0 <= i < n && (#[trigger] joins[i]).1.from == id && place == joins[i].0
                        + ".from"@,
        },
    decreases n,
{
    broadcast use ordered::lemma_lookup_put;

    reveal_with_fuel(with_listed_joins, 2);
    if n > 0 {
        let before = joins.take(n - 1);
        let last = joins[n - 1];
        lemma_reports_in_turn(joins, ids, (n - 1) as nat);
        assert(joins.take(n as int) =~= before + seq![last]);
        lemma_listed_joins_split(before, seq![last], ids, Seq::empty());
        assert(seq![last].drop_first() =~= Seq::empty());
        match with_listed_joins(before, ids, Seq::empty()) {
            Ok(joined) => {
                match with_join(last.1, last.0, last.2, ids, joined) {
                    Err(message) => {
                        assert(reports_join(joins, ids, message, n - 1, joined));
                    },
                    Ok(after) => {
                        assert forall|id: Seq<char>|
                            (#[trigger] ordered::lookup(after, id)) is Some implies exists|i: int|
                            0 <= i < n && (#[trigger] joins[i]).1.from == id && ordered::lookup(
                                after,
                                id,
                            )->0 == joins[i].0 + ".from"@ by {
                            if id == last.1.from {
                                assert(joins[n - 1].1.from == id);
                            } else {
                                assert(ordered::lookup(joined, id) is Some);
                            }
                        }
                    },
                }
            },
            Err(_) => {},
        }
    }
}

/// The ids that a check holds are those of the nodes, each with the kind of its node.
pub proof fn lemma_ids_are_those_of_the_nodes(f: FlowView, id: Seq<char>, kind: NodeKind)
    ensures
        with_ids(f, "flow"@, Seq::empty()) matches Ok(ids) ==> (ordered::lookup(ids, id) == Some(
            kind,
        ) <==> listed(named(f, "flow"@), id, kind)),
{
    lemma_ids_in_turn(f, "flow"@, Seq::empty());
    lemma_listed_lookup(named(f, "flow"@), Seq::empty(), id, kind);
}

/// Where the ids were taken in, no two nodes have the same.
pub proof fn lemma_distinct_ids(f: FlowView)
    ensures
        with_ids(f, "flow"@, Seq::empty()) is Ok <==> forall|i: int, j: int|
            0 <= i < j < named(f, "flow"@).len() ==> (#[trigger] named(f, "flow"@)[i]).1 != (
            #[trigger] named(f, "flow"@)[j]).1,
{
    lemma_ids_in_turn(f, "flow"@, Seq::empty());
    lemma_listed_ids(named(f, "flow"@), Seq::empty());
}

} // verus!
