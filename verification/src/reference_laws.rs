//! What the check of references accepts, said of the places of a flow.

use vstd::prelude::*;
use vstd::string::*;
use crate::flow::{FlowView, JoinMode, JoinView, NodeKind};
use crate::normalize;
use crate::ordered;
use crate::references;
use crate::text;

verus! {

broadcast use vstd::string::group_string_axioms;

// ---------------------------------------------------------------------------
// Places
// ---------------------------------------------------------------------------

/// The nodes right inside a node, in order.
pub open spec fn parts(f: FlowView) -> Seq<FlowView> {
    match f {
        FlowView::Sequence(s) => s.steps,
        FlowView::Fork(k) => Seq::new(k.branches.len(), |i: int| k.branches[i].1),
        FlowView::Loop(l) => seq![*l.body],
        FlowView::Spawn(_) => Seq::empty(),
        FlowView::Join(_) => Seq::empty(),
    }
}

/// The node at a place: the way to it, from part to part.
pub open spec fn node_at(f: FlowView, path: Seq<int>) -> Option<FlowView>
    decreases path.len(),
{
    if path.len() == 0 {
        Some(f)
    } else if 0 <= path[0] < parts(f).len() {
        node_at(parts(f)[path[0]], path.drop_first())
    } else {
        None
    }
}

/// The id of a node.
pub open spec fn id_of(f: FlowView) -> Option<Seq<char>> {
    match f {
        FlowView::Spawn(s) => s.id,
        FlowView::Sequence(s) => s.id,
        FlowView::Fork(k) => Some(k.id),
        FlowView::Join(j) => j.id,
        FlowView::Loop(l) => Some(l.id),
    }
}

/// What messages call the part at position `i` of a node that they call `label`.
pub open spec fn part_label(f: FlowView, label: Seq<char>, i: int) -> Seq<char> {
    match f {
        FlowView::Sequence(_) => label + ".steps["@ + text::decimal_text(i as nat) + "]"@,
        FlowView::Fork(k) => label + ".branches."@ + k.branches[i].0,
        _ => label + ".body"@,
    }
}

/// What messages call the node at a place.
pub open spec fn label_at(f: FlowView, label: Seq<char>, path: Seq<int>) -> Seq<char>
    decreases path.len(),
{
    if path.len() == 0 {
        label
    } else {
        label_at(parts(f)[path[0]], part_label(f, label, path[0]), path.drop_first())
    }
}

/// What messages call the kind of a node.
pub open spec fn kind_of(f: FlowView) -> Seq<char> {
    match f {
        FlowView::Spawn(_) => "spawn"@,
        FlowView::Sequence(_) => "sequence"@,
        FlowView::Fork(_) => "fork"@,
        FlowView::Join(_) => "join"@,
        FlowView::Loop(_) => "loop"@,
    }
}

/// A node has the id and the kind that it was given.
pub proof fn lemma_ids_and_kinds(f: FlowView)
    ensures
        f.id() == id_of(f),
        f.kind().name() == kind_of(f),
{
}

/// The step at position `i` of a list is a fork with this id.
pub open spec fn forks_at(steps: Seq<FlowView>, i: int, id: Seq<char>) -> bool {
    steps[i] matches FlowView::Fork(k) && k.id == id
}

/// A fork with this id is in scope at a place: on the way there the place lies in a step of
/// a sequence, and the fork is a step of the same sequence before that one.
pub open spec fn in_scope(f: FlowView, path: Seq<int>, id: Seq<char>) -> bool {
    exists|n: int, i: int| #[trigger] stands_before(f, path, id, n, i)
}

/// The first `n` parts of the way to a place lead to a sequence, which goes on to the place
/// behind its step `i`, a fork with this id.
pub open spec fn stands_before(f: FlowView, path: Seq<int>, id: Seq<char>, n: int, i: int) -> bool {
    &&& 0 <= n < path.len()
    &&& 0 <= i < path[n]
    &&& node_at(f, path.take(n)) matches Some(FlowView::Sequence(s))
    &&& i < s.steps.len()
    &&& forks_at(s.steps, i, id)
}

/// No two places of a flow have the same id.
pub open spec fn unique_ids(f: FlowView) -> bool {
    forall|p: Seq<int>, q: Seq<int>|
        (#[trigger] node_at(f, p)) is Some && (#[trigger] node_at(f, q)) is Some && id_of(
            node_at(f, p)->0,
        ) is Some && id_of(node_at(f, p)->0) == id_of(node_at(f, q)->0) ==> p == q
}

/// The references of a flow, by places: no two places have the same id; the fork of every
/// join is in scope where the join stands, and no other join has it; a join by quorum has
/// one.
pub open spec fn orderly(f: FlowView) -> bool {
    &&& unique_ids(f)
    &&& forall|p: Seq<int>|
        (#[trigger] node_at(f, p)) matches Some(FlowView::Join(j)) ==> {
            &&& in_scope(f, p, j.from)
            &&& j.mode == JoinMode::Quorum ==> j.quorum is Some
        }
    &&& forall|p: Seq<int>, q: Seq<int>|
        (#[trigger] node_at(f, p)) matches Some(FlowView::Join(a)) && (#[trigger] node_at(
            f,
            q,
        )) matches Some(FlowView::Join(b)) && a.from == b.from ==> p == q
}

/// In a sequence the forks in scope at a step are those in scope at the sequence, and those
/// among the steps before it: all of them, and no others.
pub proof fn lemma_scope_goes_by_position(
    steps: Seq<FlowView>,
    visible: Seq<Seq<char>>,
    j: nat,
    id: Seq<char>,
)
    requires
        j <= steps.len(),
    ensures
        (visible + references::fork_steps(steps, j)).contains(id) <==> visible.contains(id) || (
        exists|i: int| 0 <= i < j && #[trigger] forks_at(steps, i, id)),
{
    lemma_fork_steps(steps, j, id);
    let earlier = references::fork_steps(steps, j);
    let all = visible + earlier;
    if visible.contains(id) {
        let k = visible.index_of(id);
        assert(all[k] == id);
    }
    if earlier.contains(id) {
        let k = earlier.index_of(id);
        assert(all[visible.len() + k] == id);
    }
    if all.contains(id) {
        let k = all.index_of(id);
        if k < visible.len() {
            assert(visible[k] == id);
        } else {
            assert(earlier[k - visible.len()] == id);
        }
    }
}

proof fn lemma_fork_steps(steps: Seq<FlowView>, n: nat, id: Seq<char>)
    requires
        n <= steps.len(),
    ensures
        references::fork_steps(steps, n).contains(id) <==> exists|i: int|
            0 <= i < n && #[trigger] forks_at(steps, i, id),
    decreases n,
{
    let all = references::fork_steps(steps, n);
    if n > 0 {
        let earlier = references::fork_steps(steps, (n - 1) as nat);
        lemma_fork_steps(steps, (n - 1) as nat, id);
        if earlier.contains(id) {
            let k = earlier.index_of(id);
            assert(all[k] == id);
        }
        if forks_at(steps, n - 1, id) {
            assert(all[earlier.len() as int] == id);
        }
        if all.contains(id) {
            let k = all.index_of(id);
            if k < earlier.len() {
                assert(earlier[k] == id);
            } else {
                assert(forks_at(steps, n - 1, id));
            }
        }
    }
}

/// A flow passes the check exactly when its references are in order, place by place.
pub proof fn lemma_checked_flows_are_orderly(f: FlowView)
    ensures
        references::checked(f) is Ok <==> orderly(f),
{
    let nodes = references::named(f, "flow"@);
    let joins = references::placed(f, "flow"@, Seq::empty());
    let ids = id_paths(f);
    let ways = join_paths(f);
    references::lemma_checked_flows_are_in_order(f);
    lemma_id_paths(f, "flow"@);
    lemma_join_paths(f, "flow"@, Seq::empty());
    if references::in_order(f) {
        assert forall|p: Seq<int>, q: Seq<int>|
            (#[trigger] node_at(f, p)) is Some && (#[trigger] node_at(f, q)) is Some && id_of(
                node_at(f, p)->0,
            ) is Some && id_of(node_at(f, p)->0) == id_of(node_at(f, q)->0) implies p == q by {
            assert(ids.contains(p) && ids.contains(q));
            let a = ids.index_of(p);
            let b = ids.index_of(q);
            assert(nodes[a].1 == nodes[b].1);
        }
        assert forall|p: Seq<int>|
            (#[trigger] node_at(f, p)) matches Some(FlowView::Join(j)) implies {
            let j = node_at(f, p)->0->Join_0;
            &&& in_scope(f, p, j.from)
            &&& j.mode == JoinMode::Quorum ==> j.quorum is Some
        } by {
            assert(ways.contains(p));
            let a = ways.index_of(p);
            assert(joins[a].2.contains(joins[a].1.from));
            assert(!Seq::<Seq<char>>::empty().contains(joins[a].1.from));
        }
        assert forall|p: Seq<int>, q: Seq<int>|
            (#[trigger] node_at(f, p)) matches Some(FlowView::Join(a)) && (#[trigger] node_at(
                f,
                q,
            )) matches Some(FlowView::Join(b)) && a.from == b.from implies p == q by {
            assert(ways.contains(p) && ways.contains(q));
            let a = ways.index_of(p);
            let b = ways.index_of(q);
            assert(joins[a].1.from == joins[b].1.from);
        }
    }
    if orderly(f) {
        assert forall|i: int, j: int| 0 <= i < j < nodes.len() implies (#[trigger] nodes[i]).1 != (
        #[trigger] nodes[j]).1 by {
            if nodes[i].1 == nodes[j].1 {
                assert(node_at(f, ids[i]) is Some && node_at(f, ids[j]) is Some);
                assert(ids[i] == ids[j]);
            }
        }
        assert forall|i: int| 0 <= i < joins.len() implies {
            let (_, join, visible) = #[trigger] joins[i];
            &&& references::listed(nodes, join.from, NodeKind::Fork)
            &&& visible.contains(join.from)
            &&& join.mode == JoinMode::Quorum ==> join.quorum is Some
        } by {
            let p = ways[i];
            let join = joins[i].1;
            assert(node_at(f, p) == Some(FlowView::Join(join)));
            assert(in_scope(f, p, join.from));
            let (n, k) = choose|n: int, k: int| #[trigger] stands_before(f, p, join.from, n, k);
            let around = p.take(n);
            let at = around.push(k);
            lemma_node_below(f, around, k);
            assert(node_at(f, at) == Some(node_at(f, around)->0->Sequence_0.steps[k]));
            assert(ids.contains(at));
            let b = ids.index_of(at);
            assert(nodes[b].1 == join.from && nodes[b].2 == NodeKind::Fork);
        }
        assert forall|i: int, j: int| 0 <= i < j < joins.len() implies (#[trigger] joins[i]).1.from
            != (#[trigger] joins[j]).1.from by {
            if joins[i].1.from == joins[j].1.from {
                assert(node_at(f, ways[i]) is Some && node_at(f, ways[j]) is Some);
                assert(ways[i] == ways[j]);
            }
        }
    }
}

/// Two nodes have the same id, and the message names the place of the second and the kind of
/// the first.
pub open spec fn is_duplicate(f: FlowView, message: Seq<char>, p: Seq<int>, q: Seq<int>) -> bool {
    &&& p != q
    &&& node_at(f, p) is Some
    &&& node_at(f, q) is Some
    &&& id_of(node_at(f, q)->0) is Some
    &&& id_of(node_at(f, p)->0) == id_of(node_at(f, q)->0)
    &&& message == label_at(f, "flow"@, q) + ".id duplicates \""@ + id_of(node_at(f, q)->0)->0
        + "\", already used by a "@ + kind_of(node_at(f, p)->0) + " node."@
}

/// Some node of a flow has this id, and is a fork or is not.
pub open spec fn has_node(f: FlowView, id: Seq<char>, q: Seq<int>) -> bool {
    node_at(f, q) is Some && id_of(node_at(f, q)->0) == Some(id)
}

/// A join at a place may not stand there, and the message says where it is and why: nothing
/// has the id of its fork; what has it is no fork; the fork is not in scope; another join has
/// it; or its quorum is missing.
pub open spec fn is_bad_join(f: FlowView, message: Seq<char>, p: Seq<int>) -> bool {
    &&& node_at(f, p) matches Some(FlowView::Join(j))
    &&& ({
        let at = label_at(f, "flow"@, p);
        ||| {
            &&& forall|q: Seq<int>| !#[trigger] has_node(f, j.from, q)
            &&& message == at + ".from references unknown fork \""@ + j.from + "\"."@
        }
        ||| exists|q: Seq<int>|
            {
                &&& #[trigger] has_node(f, j.from, q)
                &&& !(node_at(f, q)->0 is Fork)
                &&& message == at + ".from must reference a fork node, but \""@ + j.from
                    + "\" is a "@ + kind_of(node_at(f, q)->0) + "."@
            }
        ||| {
            &&& exists|q: Seq<int>| #[trigger] has_node(f, j.from, q) && node_at(f, q)->0 is Fork
            &&& !in_scope(f, p, j.from)
            &&& message == at + ".from: fork \""@ + j.from + "\" is not in scope at this point."@
        }
        ||| exists|q: Seq<int>|
            {
                &&& q != p
                &&& in_scope(f, p, j.from)
                &&& (#[trigger] node_at(f, q)) matches Some(FlowView::Join(other)) && other.from
                    == j.from
                &&& message == at + ".from references fork \""@ + j.from
                    + "\", already joined at "@ + label_at(f, "flow"@, q) + ".from."@
            }
        ||| {
            &&& in_scope(f, p, j.from)
            &&& j.mode == JoinMode::Quorum
            &&& j.quorum is None
            &&& message == at + ".quorum is required when mode=\"quorum\"."@
        }
    })
}

/// What the check reports is so: two nodes that have the same id, or, where there are none,
/// a join that may not stand where it stands.
pub proof fn lemma_reports_are_true(f: FlowView)
    ensures
        references::checked(f) matches Err(message) ==> (exists|p: Seq<int>, q: Seq<int>|
            is_duplicate(f, message, p, q)) || (unique_ids(f) && exists|p: Seq<int>|
            is_bad_join(f, message, p)),
{
    let nodes = references::named(f, "flow"@);
    let joins = references::placed(f, "flow"@, Seq::empty());
    let paths = id_paths(f);
    let ways = join_paths(f);
    lemma_id_paths(f, "flow"@);
    lemma_join_paths(f, "flow"@, Seq::empty());
    match references::with_ids(f, "flow"@, Seq::empty()) {
        Err(message) => {
            references::lemma_duplicates_are_reported(f);
            let (i, j) = choose|i: int, j: int|
                references::reports_duplicate(nodes, message, i, j);
            assert(paths[i] != paths[j]);
            lemma_ids_and_kinds(node_at(f, paths[i])->0);
            assert(is_duplicate(f, message, paths[i], paths[j]));
            assert(exists|p: Seq<int>, q: Seq<int>| is_duplicate(f, message, p, q));
        },
        Ok(ids) => {
            references::lemma_distinct_ids(f);
            assert forall|p: Seq<int>, q: Seq<int>|
                (#[trigger] node_at(f, p)) is Some && (#[trigger] node_at(f, q)) is Some && id_of(
                    node_at(f, p)->0,
                ) is Some && id_of(node_at(f, p)->0) == id_of(node_at(f, q)->0) implies p == q by {
                assert(paths.contains(p) && paths.contains(q));
                let a = paths.index_of(p);
                let b = paths.index_of(q);
                assert(nodes[a].1 == nodes[b].1);
            }
            match references::checked(f) {
                Err(message) => {
                    references::lemma_joins_are_reported(f, ids);
                    let (j, joined) = choose|j: int, joined: Seq<(Seq<char>, Seq<char>)>|
                        references::reports_join(joins, ids, message, j, joined);
                    let p = ways[j];
                    let join = joins[j].1;
                    let from = join.from;
                    assert(node_at(f, p) == Some(FlowView::Join(join)));
                    assert(joins[j].0 == label_at(f, "flow"@, p));
                    assert(joins[j].2.contains(from) <==> in_scope(f, p, from)) by {
                        assert(sees(f, p, Seq::empty(), joins[j].2));
                        assert(!Seq::<Seq<char>>::empty().contains(from));
                    }
                    match ordered::lookup(ids, from) {
                        None => {
                            assert forall|q: Seq<int>| !#[trigger] has_node(f, from, q) by {
                                if has_node(f, from, q) {
                                    assert(paths.contains(q));
                                    let a = paths.index_of(q);
                                    references::lemma_ids_are_those_of_the_nodes(
                                        f,
                                        from,
                                        nodes[a].2,
                                    );
                                    assert(references::listed(nodes, from, nodes[a].2));
                                }
                            }
                        },
                        Some(kind) => {
                            references::lemma_ids_are_those_of_the_nodes(f, from, kind);
                            let a = choose|a: int|
                                0 <= a < nodes.len() && (#[trigger] nodes[a]).1 == from
                                    && nodes[a].2 == kind;
                            let q = paths[a];
                            lemma_ids_and_kinds(node_at(f, q)->0);
                            assert(has_node(f, from, q));
                            assert(kind == NodeKind::Fork <==> node_at(f, q)->0 is Fork);
                            if kind == NodeKind::Fork && joins[j].2.contains(from) {
                                match ordered::lookup(joined, from) {
                                    Some(place) => {
                                        let i = choose|i: int|
                                            0 <= i < j && (#[trigger] joins[i]).1.from == from
                                                && place == joins[i].0 + ".from"@;
                                        let other = ways[i];
                                        assert(ways[i] != ways[j]);
                                        assert(node_at(f, other) == Some(
                                            FlowView::Join(joins[i].1),
                                        ));
                                        assert(joins[i].0 == label_at(f, "flow"@, other));
                                        reveal_strlit(".from.");
                                        reveal_strlit(".from");
                                        reveal_strlit(".");
                                        let head = label_at(f, "flow"@, p)
                                            + ".from references fork \""@ + from
                                            + "\", already joined at "@;
                                        assert(message =~= head + label_at(f, "flow"@, other)
                                            + ".from."@);
                                    },
                                    None => {},
                                }
                            }
                        },
                    }
                    assert(is_bad_join(f, message, p));
                    assert(exists|p: Seq<int>| is_bad_join(f, message, p));
                    assert(unique_ids(f));
                },
                Ok(_) => {},
            }
        },
    }
    match references::checked(f) {
        Err(message) => {
            assert((exists|p: Seq<int>, q: Seq<int>| is_duplicate(f, message, p, q)) || (
            unique_ids(f) && exists|p: Seq<int>| is_bad_join(f, message, p)));
        },
        Ok(_) => {},
    }
}

proof fn lemma_node_below(f: FlowView, path: Seq<int>, k: int)
    requires
        node_at(f, path) is Some,
        0 <= k < parts(node_at(f, path)->0).len(),
    ensures
        node_at(f, path.push(k)) == Some(parts(node_at(f, path)->0)[k]),
    decreases path.len(),
{
    let longer = path.push(k);
    if path.len() == 0 {
        assert(longer.drop_first() =~= Seq::empty());
        assert(node_at(parts(f)[k], longer.drop_first()) == Some(parts(f)[k]));
    } else {
        assert(longer.drop_first() =~= path.drop_first().push(k));
        lemma_node_below(parts(f)[path[0]], path.drop_first(), k);
    }
}

proof fn lemma_part_smaller(f: FlowView, i: int)
    requires
        0 <= i < parts(f).len(),
    ensures
        decreases_to!(f => parts(f)[i]),
{
    match f {
        FlowView::Sequence(s) => {
            assert(decreases_to!(f => f->Sequence_0));
            assert(decreases_to!(f->Sequence_0 => f->Sequence_0.steps));
            assert(decreases_to!(f->Sequence_0.steps => f->Sequence_0.steps[i]));
        },
        FlowView::Fork(k) => {
            assert(decreases_to!(f => f->Fork_0));
            assert(decreases_to!(f->Fork_0 => f->Fork_0.branches));
            assert(decreases_to!(f->Fork_0.branches => f->Fork_0.branches[i]));
            assert(decreases_to!(f->Fork_0.branches[i] => f->Fork_0.branches[i].1));
        },
        FlowView::Loop(l) => {
            assert(decreases_to!(f => f->Loop_0));
            assert(decreases_to!(f->Loop_0 => *f->Loop_0.body));
        },
        _ => {},
    }
}

/// Places inside the part at position `i`.
spec fn behind(i: int, paths: Seq<Seq<int>>) -> Seq<Seq<int>> {
    Seq::new(paths.len(), |j: int| seq![i] + paths[j])
}

/// The places of the nodes that have an id.
spec fn id_paths(f: FlowView) -> Seq<Seq<int>>
    decreases f, parts(f).len() + 1,
{
    (match id_of(f) {
        Some(_) => seq![Seq::<int>::empty()],
        None => Seq::<Seq<int>>::empty(),
    }) + part_id_paths(f, parts(f).len())
}

/// Those in the first `n` parts.
spec fn part_id_paths(f: FlowView, n: nat) -> Seq<Seq<int>>
    decreases f, n,
{
    if n == 0 || n > parts(f).len() {
        Seq::empty()
    } else {
        proof {
            lemma_part_smaller(f, n - 1);
        }
        part_id_paths(f, (n - 1) as nat) + behind(n - 1, id_paths(parts(f)[n - 1]))
    }
}

/// The places of the joins.
spec fn join_paths(f: FlowView) -> Seq<Seq<int>>
    decreases f, parts(f).len() + 1,
{
    (match f {
        FlowView::Join(_) => seq![Seq::<int>::empty()],
        _ => Seq::<Seq<int>>::empty(),
    }) + part_join_paths(f, parts(f).len())
}

/// Those in the first `n` parts.
spec fn part_join_paths(f: FlowView, n: nat) -> Seq<Seq<int>>
    decreases f, n,
{
    if n == 0 || n > parts(f).len() {
        Seq::empty()
    } else {
        proof {
            lemma_part_smaller(f, n - 1);
        }
        part_join_paths(f, (n - 1) as nat) + behind(n - 1, join_paths(parts(f)[n - 1]))
    }
}

spec fn named_parts(f: FlowView, label: Seq<char>, n: nat) -> Seq<
    (Seq<char>, Seq<char>, NodeKind),
> {
    match f {
        FlowView::Sequence(s) => references::named_steps(s.steps, label, n),
        FlowView::Fork(k) => references::named_branches(k.branches, label, n),
        FlowView::Loop(l) => if n == 0 {
            Seq::empty()
        } else {
            references::named(*l.body, normalize::body_label(label))
        },
        _ => Seq::empty(),
    }
}

proof fn lemma_named_parts(f: FlowView, label: Seq<char>, n: nat)
    requires
        n <= parts(f).len(),
    ensures
        n == 0 ==> named_parts(f, label, n).len() == 0,
        n > 0 ==> named_parts(f, label, n) == named_parts(f, label, (n - 1) as nat)
            + references::named(parts(f)[n - 1], part_label(f, label, n - 1)),
{
    if n > 0 {
        let own = references::named(parts(f)[n - 1], part_label(f, label, n - 1));
        assert(Seq::<(Seq<char>, Seq<char>, NodeKind)>::empty() + own =~= own);
    }
}

proof fn lemma_id_paths(f: FlowView, label: Seq<char>)
    ensures
        ({
            let paths = id_paths(f);
            let nodes = references::named(f, label);
            &&& paths.len() == nodes.len()
            &&& forall|i: int|
                #![trigger paths[i]]
                #![trigger nodes[i]]
                0 <= i < paths.len() ==> {
                    &&& node_at(f, paths[i]) is Some
                    &&& id_of(node_at(f, paths[i])->0) == Some(nodes[i].1)
                    &&& node_at(f, paths[i])->0.kind() == nodes[i].2
                    &&& nodes[i].0 == label_at(f, label, paths[i])
                }
            &&& paths.no_duplicates()
            &&& forall|p: Seq<int>|
                (#[trigger] node_at(f, p)) is Some && id_of(node_at(f, p)->0) is Some
                    ==> paths.contains(p)
        }),
    decreases f, parts(f).len() + 1,
{
    let n = parts(f).len();
    let inner = part_id_paths(f, n);
    let own = match id_of(f) {
        Some(_) => seq![Seq::<int>::empty()],
        None => Seq::<Seq<int>>::empty(),
    };
    let paths = own + inner;
    let nodes = references::named(f, label);
    let below = named_parts(f, label, n);
    lemma_part_id_paths(f, label, n);
    let head = match id_of(f) {
        Some(id) => seq![(label, id, f.kind())],
        None => Seq::empty(),
    };
    assert(nodes =~= head + below);
    assert forall|i: int|
        #![trigger paths[i]]
        #![trigger nodes[i]]
        0 <= i < paths.len() implies {
        &&& node_at(f, paths[i]) is Some
        &&& id_of(node_at(f, paths[i])->0) == Some(nodes[i].1)
        &&& node_at(f, paths[i])->0.kind() == nodes[i].2
        &&& nodes[i].0 == label_at(f, label, paths[i])
    } by {
        if i >= own.len() {
            assert(paths[i] == inner[i - own.len()]);
            assert(nodes[i] == below[i - own.len()]);
        } else {
            assert(paths[i] =~= Seq::empty());
        }
    }
    assert(paths.no_duplicates()) by {
        assert forall|i: int, j: int| 0 <= i < j < paths.len() implies paths[i] != paths[j] by {
            if i >= own.len() {
                assert(paths[i] == inner[i - own.len()]);
            }
            assert(paths[j] == inner[j - own.len()]);
        }
    }
    assert forall|p: Seq<int>|
        (#[trigger] node_at(f, p)) is Some && id_of(node_at(f, p)->0) is Some implies paths.contains(
        p,
    ) by {
        if p.len() == 0 {
            assert(p =~= Seq::<int>::empty());
            assert(paths[0] == p);
        } else {
            assert(inner.contains(p));
            let k = inner.index_of(p);
            assert(paths[own.len() + k] == p);
        }
    }
}

proof fn lemma_part_id_paths(f: FlowView, label: Seq<char>, n: nat)
    requires
        n <= parts(f).len(),
    ensures
        ({
            let paths = part_id_paths(f, n);
            let nodes = named_parts(f, label, n);
            &&& paths.len() == nodes.len()
            &&& forall|i: int|
                #![trigger paths[i]]
                #![trigger nodes[i]]
                0 <= i < paths.len() ==> {
                    &&& paths[i].len() > 0
                    &&& 0 <= paths[i][0] < n
                    &&& node_at(f, paths[i]) is Some
                    &&& id_of(node_at(f, paths[i])->0) == Some(nodes[i].1)
                    &&& node_at(f, paths[i])->0.kind() == nodes[i].2
                    &&& nodes[i].0 == label_at(f, label, paths[i])
                }
            &&& paths.no_duplicates()
            &&& forall|p: Seq<int>|
                (#[trigger] node_at(f, p)) is Some && p.len() > 0 && p[0] < n && id_of(
                    node_at(f, p)->0,
                ) is Some ==> paths.contains(p)
        }),
    decreases f, n,
{
    lemma_named_parts(f, label, n);
    if n > 0 {
        let m = (n - 1) as nat;
        let part = parts(f)[n - 1];
        let at = part_label(f, label, n - 1);
        lemma_part_smaller(f, n - 1);
        lemma_part_id_paths(f, label, m);
        lemma_id_paths(part, at);
        let before = part_id_paths(f, m);
        let inner = id_paths(part);
        let own = behind(n - 1, inner);
        let paths = before + own;
        let nodes = named_parts(f, label, n);
        let earlier = named_parts(f, label, m);
        let last = references::named(part, at);
        assert(part_id_paths(f, n) == paths);
        assert(nodes == earlier + last);
        assert forall|j: int| 0 <= j < own.len() implies (#[trigger] own[j]).len() > 0 && own[j][0]
            == n - 1 && own[j].drop_first() == inner[j] && node_at(f, own[j]) == node_at(
            part,
            inner[j],
        ) && label_at(f, label, own[j]) == label_at(part, at, inner[j]) by {
            assert(own[j] == seq![n - 1] + inner[j]);
            assert(own[j].drop_first() =~= inner[j]);
        }
        assert forall|i: int|
            #![trigger paths[i]]
            #![trigger nodes[i]]
            0 <= i < paths.len() implies {
            &&& paths[i].len() > 0
            &&& 0 <= paths[i][0] < n
            &&& node_at(f, paths[i]) is Some
            &&& id_of(node_at(f, paths[i])->0) == Some(nodes[i].1)
            &&& node_at(f, paths[i])->0.kind() == nodes[i].2
            &&& nodes[i].0 == label_at(f, label, paths[i])
        } by {
            if i < before.len() {
                assert(paths[i] == before[i] && nodes[i] == earlier[i]);
            } else {
                let j = i - before.len();
                assert(paths[i] == own[j] && nodes[i] == last[j]);
                assert(node_at(part, inner[j]) is Some);
            }
        }
        assert(paths.no_duplicates()) by {
            assert forall|i: int, j: int| 0 <= i < j < paths.len() implies paths[i] != paths[j] by {
                if j < before.len() {
                    assert(paths[i] == before[i] && paths[j] == before[j]);
                } else {
                    assert(paths[j] == own[j - before.len()]);
                    if i < before.len() {
                        assert(paths[i] == before[i]);
                        assert(before[i][0] < m);
                    } else {
                        let a = i - before.len();
                        let b = j - before.len();
                        assert(paths[i] == own[a]);
                        if own[a] == own[b] {
                            assert(inner[a] == inner[b]);
                        }
                    }
                }
            }
        }
        assert forall|p: Seq<int>|
            (#[trigger] node_at(f, p)) is Some && p.len() > 0 && p[0] < n && id_of(
                node_at(f, p)->0,
            ) is Some implies paths.contains(p) by {
            if p[0] < m {
                assert(before.contains(p));
                let k = before.index_of(p);
                assert(paths[k] == p);
            } else {
                let rest = p.drop_first();
                assert(node_at(part, rest) == node_at(f, p));
                assert(inner.contains(rest));
                let k = inner.index_of(rest);
                assert(own[k] =~= p);
                assert(paths[before.len() + k] == p);
            }
        }
    }
}

spec fn part_visible(f: FlowView, visible: Seq<Seq<char>>, i: int) -> Seq<Seq<char>> {
    match f {
        FlowView::Sequence(s) => visible + references::fork_steps(s.steps, i as nat),
        _ => visible,
    }
}

spec fn placed_parts(f: FlowView, label: Seq<char>, visible: Seq<Seq<char>>, n: nat) -> Seq<
    (Seq<char>, JoinView, Seq<Seq<char>>),
> {
    match f {
        FlowView::Sequence(s) => references::placed_steps(s.steps, label, visible, n),
        FlowView::Fork(k) => references::placed_branches(k.branches, label, visible, n),
        FlowView::Loop(l) => if n == 0 {
            Seq::empty()
        } else {
            references::placed(*l.body, normalize::body_label(label), visible)
        },
        _ => Seq::empty(),
    }
}

proof fn lemma_placed_parts(f: FlowView, label: Seq<char>, visible: Seq<Seq<char>>, n: nat)
    requires
        n <= parts(f).len(),
    ensures
        n == 0 ==> placed_parts(f, label, visible, n).len() == 0,
        n > 0 ==> placed_parts(f, label, visible, n) == placed_parts(
            f,
            label,
            visible,
            (n - 1) as nat,
        ) + references::placed(
            parts(f)[n - 1],
            part_label(f, label, n - 1),
            part_visible(f, visible, n - 1),
        ),
{
    if n > 0 {
        let own = references::placed(
            parts(f)[n - 1],
            part_label(f, label, n - 1),
            part_visible(f, visible, n - 1),
        );
        assert(Seq::<(Seq<char>, JoinView, Seq<Seq<char>>)>::empty() + own =~= own);
    }
}

/// A fork in scope at a place inside a part is in scope at the part's place among its
/// siblings, or inside the part.
proof fn lemma_scope_inside(f: FlowView, path: Seq<int>, id: Seq<char>)
    requires
        path.len() > 0,
        0 <= path[0] < parts(f).len(),
    ensures
        in_scope(f, path, id) <==> (f matches FlowView::Sequence(s) && exists|i: int|
            0 <= i < path[0] && #[trigger] forks_at(s.steps, i, id)) || in_scope(
            parts(f)[path[0]],
            path.drop_first(),
            id,
        ),
{
    let part = parts(f)[path[0]];
    let rest = path.drop_first();
    if in_scope(f, path, id) {
        let (n, i) = choose|n: int, i: int| #[trigger] stands_before(f, path, id, n, i);
        if n == 0 {
            assert(path.take(0) =~= Seq::empty());
        } else {
            assert(path.take(n).drop_first() =~= rest.take(n - 1));
            assert(path.take(n)[0] == path[0]);
            assert(node_at(f, path.take(n)) == node_at(part, rest.take(n - 1)));
            assert(rest[n - 1] == path[n]);
            assert(stands_before(part, rest, id, n - 1, i));
        }
    }
    if f matches FlowView::Sequence(s) && exists|i: int|
        0 <= i < path[0] && #[trigger] forks_at(s.steps, i, id) {
        let s = f->Sequence_0;
        let i = choose|i: int| 0 <= i < path[0] && #[trigger] forks_at(s.steps, i, id);
        assert(path.take(0) =~= Seq::empty());
        assert(stands_before(f, path, id, 0, i));
    }
    if in_scope(part, rest, id) {
        let (n, i) = choose|n: int, i: int| #[trigger] stands_before(part, rest, id, n, i);
        assert(path.take(n + 1).drop_first() =~= rest.take(n));
        assert(path.take(n + 1)[0] == path[0]);
        assert(node_at(f, path.take(n + 1)) == node_at(part, rest.take(n)));
        assert(rest[n] == path[n + 1]);
        assert(stands_before(f, path, id, n + 1, i));
    }
}

/// The forks that a join sees are those in scope around the flow, and those in scope in it.
spec fn sees(
    f: FlowView,
    path: Seq<int>,
    visible: Seq<Seq<char>>,
    seen: Seq<Seq<char>>,
) -> bool {
    forall|id: Seq<char>|
        #[trigger] seen.contains(id) <==> visible.contains(id) || in_scope(f, path, id)
}

proof fn lemma_join_paths(f: FlowView, label: Seq<char>, visible: Seq<Seq<char>>)
    ensures
        ({
            let paths = join_paths(f);
            let joins = references::placed(f, label, visible);
            &&& paths.len() == joins.len()
            &&& forall|i: int|
                #![trigger paths[i]]
                #![trigger joins[i]]
                0 <= i < paths.len() ==> {
                    &&& node_at(f, paths[i]) == Some(FlowView::Join(joins[i].1))
                    &&& sees(f, paths[i], visible, joins[i].2)
                    &&& joins[i].0 == label_at(f, label, paths[i])
                }
            &&& paths.no_duplicates()
            &&& forall|p: Seq<int>|
                (#[trigger] node_at(f, p)) matches Some(FlowView::Join(_)) ==> paths.contains(p)
        }),
    decreases f, parts(f).len() + 1,
{
    let n = parts(f).len();
    let inner = part_join_paths(f, n);
    let paths = join_paths(f);
    let joins = references::placed(f, label, visible);
    lemma_part_join_paths(f, label, visible, n);
    if f is Join {
        assert(inner.len() == 0);
        assert(paths =~= seq![Seq::<int>::empty()]);
        assert forall|id: Seq<char>| !in_scope(f, Seq::<int>::empty(), id) by {}
        assert forall|p: Seq<int>|
            (#[trigger] node_at(f, p)) matches Some(FlowView::Join(_)) implies paths.contains(p) by {
            assert(p =~= Seq::<int>::empty());
            assert(paths[0] == p);
        }
    } else {
        assert(paths =~= inner);
        assert(joins == placed_parts(f, label, visible, n));
    }
}

proof fn lemma_part_join_paths(f: FlowView, label: Seq<char>, visible: Seq<Seq<char>>, n: nat)
    requires
        n <= parts(f).len(),
    ensures
        ({
            let paths = part_join_paths(f, n);
            let joins = placed_parts(f, label, visible, n);
            &&& paths.len() == joins.len()
            &&& forall|i: int|
                #![trigger paths[i]]
                #![trigger joins[i]]
                0 <= i < paths.len() ==> {
                    &&& paths[i].len() > 0
                    &&& 0 <= paths[i][0] < n
                    &&& node_at(f, paths[i]) == Some(FlowView::Join(joins[i].1))
                    &&& sees(f, paths[i], visible, joins[i].2)
                    &&& joins[i].0 == label_at(f, label, paths[i])
                }
            &&& paths.no_duplicates()
            &&& forall|p: Seq<int>|
                (#[trigger] node_at(f, p)) matches Some(FlowView::Join(_)) && p.len() > 0 && p[0]
                    < n ==> paths.contains(p)
        }),
    decreases f, n,
{
    lemma_placed_parts(f, label, visible, n);
    if n > 0 {
        let m = (n - 1) as nat;
        let part = parts(f)[n - 1];
        let at = part_label(f, label, n - 1);
        let scope = part_visible(f, visible, n - 1);
        lemma_part_smaller(f, n - 1);
        lemma_part_join_paths(f, label, visible, m);
        lemma_join_paths(part, at, scope);
        let before = part_join_paths(f, m);
        let inner = join_paths(part);
        let own = behind(n - 1, inner);
        let paths = before + own;
        let joins = placed_parts(f, label, visible, n);
        let earlier = placed_parts(f, label, visible, m);
        let last = references::placed(part, at, scope);
        assert(part_join_paths(f, n) == paths);
        assert(joins == earlier + last);
        assert forall|j: int| 0 <= j < own.len() implies (#[trigger] own[j]).len() > 0 && own[j][0]
            == n - 1 && own[j].drop_first() == inner[j] && node_at(f, own[j]) == node_at(
            part,
            inner[j],
        ) && label_at(f, label, own[j]) == label_at(part, at, inner[j]) by {
            assert(own[j] == seq![n - 1] + inner[j]);
            assert(own[j].drop_first() =~= inner[j]);
        }
        assert forall|i: int|
            #![trigger paths[i]]
            #![trigger joins[i]]
            0 <= i < paths.len() implies {
            &&& paths[i].len() > 0
            &&& 0 <= paths[i][0] < n
            &&& node_at(f, paths[i]) == Some(FlowView::Join(joins[i].1))
            &&& sees(f, paths[i], visible, joins[i].2)
            &&& joins[i].0 == label_at(f, label, paths[i])
        } by {
            if i < before.len() {
                assert(paths[i] == before[i] && joins[i] == earlier[i]);
            } else {
                let j = i - before.len();
                assert(paths[i] == own[j] && joins[i] == last[j]);
                assert(node_at(part, inner[j]) == Some(FlowView::Join(last[j].1)));
                assert(sees(part, inner[j], scope, last[j].2));
                assert forall|id: Seq<char>|
                    #[trigger] joins[i].2.contains(id) <==> visible.contains(id) || in_scope(
                        f,
                        paths[i],
                        id,
                    ) by {
                    lemma_scope_inside(f, paths[i], id);
                    match f {
                        FlowView::Sequence(s) => {
                            lemma_scope_goes_by_position(s.steps, visible, m, id);
                        },
                        _ => {},
                    }
                }
            }
        }
        assert(paths.no_duplicates()) by {
            assert forall|i: int, j: int| 0 <= i < j < paths.len() implies paths[i] != paths[j] by {
                if j < before.len() {
                    assert(paths[i] == before[i] && paths[j] == before[j]);
                } else {
                    assert(paths[j] == own[j - before.len()]);
                    if i < before.len() {
                        assert(paths[i] == before[i]);
                        assert(before[i][0] < m);
                    } else {
                        let a = i - before.len();
                        let b = j - before.len();
                        assert(paths[i] == own[a]);
                        if own[a] == own[b] {
                            assert(inner[a] == inner[b]);
                        }
                    }
                }
            }
        }
        assert forall|p: Seq<int>|
            (#[trigger] node_at(f, p)) matches Some(FlowView::Join(_)) && p.len() > 0 && p[0]
                < n implies paths.contains(p) by {
            if p[0] < m {
                assert(before.contains(p));
                let k = before.index_of(p);
                assert(paths[k] == p);
            } else {
                let rest = p.drop_first();
                assert(node_at(part, rest) == node_at(f, p));
                assert(inner.contains(rest));
                let k = inner.index_of(rest);
                assert(own[k] =~= p);
                assert(paths[before.len() + k] == p);
            }
        }
    }
}

} // verus!
