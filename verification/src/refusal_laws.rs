//! What is said of a node that denotes no flow: the first of its troubles, in the order in
//! which they are met.

use vstd::prelude::*;
use vstd::string::*;
use crate::canonical;
use crate::codec;
use crate::flow::{FlowView, NodeKind};
use crate::json;
use crate::json::{JsonView, NumberView};
use crate::ordered;
use crate::reading_laws::field;
use crate::text;

verus! {

broadcast use vstd::string::group_string_axioms;

// ---------------------------------------------------------------------------
// Troubles
// ---------------------------------------------------------------------------

/// A value, as a message names it.
pub open spec fn told(value: JsonView) -> Seq<char> {
    match value {
        JsonView::Null => "null"@,
        JsonView::Bool(b) => if b {
            "boolean `true`"@
        } else {
            "boolean `false`"@
        },
        JsonView::Number(NumberView::Integer(n)) => "integer `"@ + text::integer_text(n) + "`"@,
        JsonView::Number(_) => "floating point `"@ + json::compact_json(value) + "`"@,
        JsonView::Text(text) => "string "@ + text::debug_text(text),
        JsonView::Array(_) => "sequence"@,
        JsonView::Object(_) => "map"@,
    }
}

/// A value of another type than wanted.
pub open spec fn unfit(value: JsonView, wanted: Seq<char>) -> Option<Seq<char>> {
    Some("invalid type: "@ + told(value) + ", expected "@ + wanted)
}

/// A field that is wanted and not there.
pub open spec fn absent(value: Option<JsonView>, name: Seq<char>) -> Option<Seq<char>> {
    if value is None {
        Some("missing field `"@ + name + "`"@)
    } else {
        None
    }
}

/// A field, where one of `null` counts as none.
pub open spec fn filled_in(value: Option<JsonView>) -> Option<JsonView> {
    if value == Some(JsonView::Null) {
        None
    } else {
        value
    }
}

/// What is wrong with a field that holds a text.
pub open spec fn text_trouble(value: Option<JsonView>) -> Option<Seq<char>> {
    match value {
        Some(value) if !(value is Text) => unfit(value, "a string"@),
        _ => None,
    }
}

/// What is wrong with a field that holds a count.
pub open spec fn count_trouble(value: Option<JsonView>) -> Option<Seq<char>> {
    match value {
        Some(JsonView::Number(NumberView::Integer(n))) => if 0 <= n <= usize::MAX {
            None
        } else {
            Some("invalid value: integer `"@ + text::integer_text(n) + "`, expected usize"@)
        },
        Some(value) => unfit(value, "usize"@),
        None => None,
    }
}

/// What is wrong with a field that holds one of the names listed.
pub open spec fn choice_trouble(
    value: Option<JsonView>,
    names: Seq<Seq<char>>,
    listed: Seq<char>,
) -> Option<Seq<char>> {
    match value {
        None => None,
        Some(JsonView::Text(name)) => if names.contains(name) {
            None
        } else {
            Some("unknown variant `"@ + name + "`, expected "@ + listed)
        },
        Some(JsonView::Object(entries)) => if entries.len() != 1 {
            Some("invalid value: map, expected map with a single key"@)
        } else if !names.contains(entries[0].0) {
            Some("unknown variant `"@ + entries[0].0 + "`, expected "@ + listed)
        } else if entries[0].1 is Null || (entries[0].1 is Object
            && entries[0].1->Object_0.len() == 0) {
            None
        } else {
            unfit(entries[0].1, "unit"@)
        },
        Some(value) => unfit(value, "string or map"@),
    }
}

/// What is wrong with a field that holds an output mode.
pub open spec fn output_trouble(value: Option<JsonView>) -> Option<Seq<char>> {
    choice_trouble(value, seq!["text"@, "json"@], "`text` or `json`"@)
}

/// What is wrong with a field that holds a join mode.
pub open spec fn mode_trouble(value: Option<JsonView>) -> Option<Seq<char>> {
    choice_trouble(value, seq!["all"@, "any"@, "quorum"@], "one of `all`, `any`, `quorum`"@)
}

/// What is wrong with a field that holds a failure policy.
pub open spec fn policy_trouble(value: Option<JsonView>) -> Option<Seq<char>> {
    choice_trouble(
        value,
        seq!["failFast"@, "collectErrors"@],
        "`failFast` or `collectErrors`"@,
    )
}

/// An array that ends before its field `i`, else what is wrong with that field.
pub open spec fn place_trouble(
    node: JsonView,
    i: int,
    wanted: Seq<char>,
    trouble: Option<Seq<char>>,
) -> Option<Seq<char>> {
    if node->Array_0.len() <= i + 1 {
        Some("invalid length "@ + text::decimal_text(i as nat) + ", expected "@ + wanted)
    } else {
        trouble
    }
}

/// An array that goes on behind its `n` fields.
pub open spec fn excess(node: JsonView, n: int, wanted: Seq<char>) -> Option<Seq<char>> {
    if node->Array_0.len() > n + 1 {
        Some(
            "invalid length "@ + text::decimal_text((node->Array_0.len() - 1) as nat)
                + ", expected "@ + wanted,
        )
    } else {
        None
    }
}

/// The message is the first of the troubles.
pub open spec fn comes_first(troubles: Seq<Option<Seq<char>>>, message: Seq<char>) -> bool {
    exists|i: int|
        #![trigger troubles[i]]
        0 <= i < troubles.len() && troubles[i] == Some(message) && forall|j: int|
            0 <= j < i ==> (#[trigger] troubles[j]) is None
}

/// What was read, or the first of the troubles.
pub open spec fn said<T>(result: Result<T, Seq<char>>, troubles: Seq<Option<Seq<char>>>) -> bool {
    match result {
        Ok(_) => forall|i: int| 0 <= i < troubles.len() ==> (#[trigger] troubles[i]) is None,
        Err(message) => comes_first(troubles, message),
    }
}

proof fn lemma_first_is_said(troubles: Seq<Option<Seq<char>>>)
    ensures
        match codec::first(troubles) {
            None => forall|i: int| 0 <= i < troubles.len() ==> (#[trigger] troubles[i]) is None,
            Some(message) => comes_first(troubles, message),
        },
    decreases troubles.len(),
{
    if troubles.len() > 0 {
        let rest = troubles.drop_first();
        assert(forall|i: int| 0 <= i < rest.len() ==> rest[i] == troubles[i + 1]);
        lemma_first_is_said(rest);
        if troubles[0] is Some {
            assert(comes_first(troubles, troubles[0]->0));
        } else {
            match codec::first(rest) {
                Some(message) => {
                    let k = choose|k: int|
                        #![trigger rest[k]]
                        0 <= k < rest.len() && rest[k] == Some(message) && forall|j: int|
                            0 <= j < k ==> (#[trigger] rest[j]) is None;
                    assert forall|j: int| 0 <= j < k + 1 implies (#[trigger] troubles[j]) is None by {
                        if j > 0 {
                            assert(rest[j - 1] is None);
                        }
                    }
                    assert(troubles[k + 1] == Some(message));
                },
                None => {
                    assert forall|i: int| 0 <= i < troubles.len() implies (
                    #[trigger] troubles[i]) is None by {
                        if i > 0 {
                            assert(rest[i - 1] is None);
                        }
                    }
                },
            }
        }
    }
}

proof fn lemma_text_troubles(value: Option<JsonView>)
    ensures
        codec::fault(codec::decoded_text(value)) == text_trouble(value),
        codec::fault(codec::decoded_text(codec::given(value))) == text_trouble(filled_in(value)),
        codec::lack(codec::decoded_text(value), "agent"@) == absent(value, "agent"@),
        codec::lack(codec::decoded_text(value), "task"@) == absent(value, "task"@),
        codec::lack(codec::decoded_text(value), "from"@) == absent(value, "from"@),
        codec::lack(codec::decoded_text(value), "id"@) == absent(value, "id"@),
{
}

proof fn lemma_count_troubles(value: Option<JsonView>)
    ensures
        codec::fault(codec::decoded_count(value)) == count_trouble(value),
        codec::fault(codec::decoded_count(codec::given(value))) == count_trouble(filled_in(value)),
        codec::lack(codec::decoded_count(value), "maxIterations"@) == absent(
            value,
            "maxIterations"@,
        ),
{
    match value {
        Some(JsonView::Number(NumberView::Integer(n))) => {
            reveal_strlit("invalid value: ");
            reveal_strlit("integer `");
            reveal_strlit("`");
            reveal_strlit(", expected ");
            reveal_strlit("usize");
            reveal_strlit("invalid value: integer `");
            reveal_strlit("`, expected usize");
            assert("invalid value: "@ + ("integer `"@ + text::integer_text(n) + "`"@)
                + ", expected "@ + "usize"@ =~= "invalid value: integer `"@ + text::integer_text(n)
                + "`, expected usize"@);
        },
        _ => {},
    }
}

proof fn lemma_single_key()
    ensures
        codec::wrong_value("map"@, "map with a single key"@)
            == "invalid value: map, expected map with a single key"@,
{
    reveal_strlit("invalid value: ");
    reveal_strlit("map");
    reveal_strlit(", expected ");
    reveal_strlit("map with a single key");
    reveal_strlit("invalid value: map, expected map with a single key");
    assert(codec::wrong_value("map"@, "map with a single key"@)
        =~= "invalid value: map, expected map with a single key"@);
}

proof fn lemma_output_troubles(value: Option<JsonView>)
    ensures
        codec::fault(codec::decoded_output(value)) == output_trouble(value),
        codec::fault(codec::decoded_output(codec::given(value))) == output_trouble(
            filled_in(value),
        ),
{
    lemma_single_key();
    let names = seq!["text"@, "json"@];
    assert forall|name: Seq<char>| names.contains(name) <==> name == "text"@ || name
        == "json"@ by {
        assert(names[0] == "text"@ && names[1] == "json"@);
    }
}

proof fn lemma_mode_troubles(value: Option<JsonView>)
    ensures
        codec::fault(codec::decoded_mode(value)) == mode_trouble(value),
        codec::lack(codec::decoded_mode(value), "mode"@) == absent(value, "mode"@),
{
    lemma_single_key();
    let names = seq!["all"@, "any"@, "quorum"@];
    assert forall|name: Seq<char>| names.contains(name) <==> name == "all"@ || name == "any"@
        || name == "quorum"@ by {
        assert(names[0] == "all"@ && names[1] == "any"@ && names[2] == "quorum"@);
    }
}

proof fn lemma_policy_troubles(value: Option<JsonView>)
    ensures
        codec::fault(codec::decoded_failure(codec::given(value))) == policy_trouble(
            filled_in(value),
        ),
{
    lemma_single_key();
    let names = seq!["failFast"@, "collectErrors"@];
    assert forall|name: Seq<char>| names.contains(name) <==> name == "failFast"@ || name
        == "collectErrors"@ by {
        assert(names[0] == "failFast"@ && names[1] == "collectErrors"@);
    }
}

/// The first of the troubles, if there is any.
pub open spec fn earliest(troubles: Seq<Option<Seq<char>>>) -> Option<Seq<char>> {
    if exists|message: Seq<char>| comes_first(troubles, message) {
        Some(choose|message: Seq<char>| comes_first(troubles, message))
    } else {
        None
    }
}

proof fn lemma_one_comes_first(troubles: Seq<Option<Seq<char>>>, a: Seq<char>, b: Seq<char>)
    requires
        comes_first(troubles, a),
        comes_first(troubles, b),
    ensures
        a == b,
{
    let i = choose|i: int|
        #![trigger troubles[i]]
        0 <= i < troubles.len() && troubles[i] == Some(a) && forall|j: int|
            0 <= j < i ==> (#[trigger] troubles[j]) is None;
    let k = choose|k: int|
        #![trigger troubles[k]]
        0 <= k < troubles.len() && troubles[k] == Some(b) && forall|j: int|
            0 <= j < k ==> (#[trigger] troubles[j]) is None;
    if i < k {
        assert(troubles[i] is None);
    } else if k < i {
        assert(troubles[k] is None);
    }
}

proof fn lemma_earliest<T>(result: Result<T, Seq<char>>, troubles: Seq<Option<Seq<char>>>)
    requires
        said(result, troubles),
    ensures
        codec::fault(result) == earliest(troubles),
{
    match result {
        Err(message) => {
            let chosen = choose|message: Seq<char>| comes_first(troubles, message);
            lemma_one_comes_first(troubles, message, chosen);
        },
        Ok(_) => {
            if exists|message: Seq<char>| comes_first(troubles, message) {
                let chosen = choose|message: Seq<char>| comes_first(troubles, message);
                let i = choose|i: int|
                    #![trigger troubles[i]]
                    0 <= i < troubles.len() && troubles[i] == Some(chosen) && forall|j: int|
                        0 <= j < i ==> (#[trigger] troubles[j]) is None;
                assert(troubles[i] is None);
            }
        },
    }
}

// ---------------------------------------------------------------------------
// Tags
// ---------------------------------------------------------------------------

/// The tag of a node: under `kind` in an object, in front in an array.
pub open spec fn tag_of(node: JsonView) -> Option<JsonView> {
    match node {
        JsonView::Object(entries) => ordered::lookup(entries, "kind"@),
        JsonView::Array(items) => if items.len() > 0 {
            Some(items[0])
        } else {
            None
        },
        _ => None,
    }
}

/// The tag is the name of the kind, or, where numbers are taken, its number.
pub open spec fn tagged(node: JsonView, numbers: bool, kind: Seq<char>, number: int) -> bool {
    ||| tag_of(node) == Some(JsonView::Text(kind))
    ||| numbers && tag_of(node) == Some(JsonView::Number(NumberView::Integer(number)))
}

/// What is wrong with the tag of a node whose kind is one of those named.
pub open spec fn tag_trouble(
    node: JsonView,
    numbers: bool,
    title: Seq<char>,
    names: Seq<Seq<char>>,
    listed: Seq<char>,
    indices: Seq<char>,
) -> Option<Seq<char>> {
    match tag_of(node) {
        None => if node is Object || node is Array {
            Some("missing field `kind`"@)
        } else {
            unfit(node, title)
        },
        Some(JsonView::Text(name)) => if names.contains(name) {
            None
        } else {
            Some("unknown variant `"@ + name + "`, expected "@ + listed)
        },
        Some(JsonView::Number(NumberView::Integer(n))) if numbers && n >= 0 => if n
            < names.len() {
            None
        } else {
            Some(
                "invalid value: integer `"@ + text::integer_text(n) + "`, expected "@ + indices,
            )
        },
        Some(other) => unfit(other, "variant identifier"@),
    }
}

/// What is wrong with the tag of a flow.
pub open spec fn kind_trouble(node: JsonView, nested: bool) -> Option<Seq<char>> {
    tag_trouble(
        node,
        nested,
        "internally tagged enum FlowSpec"@,
        seq!["spawn"@, "sequence"@, "fork"@, "join"@, "loop"@],
        "one of `spawn`, `sequence`, `fork`, `join`, `loop`"@,
        "variant index 0 <= i < 5"@,
    )
}

proof fn lemma_tag_messages(n: int, indices: Seq<char>)
    ensures
        codec::missing_field("kind"@) == "missing field `kind`"@,
        codec::wrong_value(codec::integer_shown(n), indices) == "invalid value: integer `"@
            + text::integer_text(n) + "`, expected "@ + indices,
{
    reveal_strlit("missing field `");
    reveal_strlit("kind");
    reveal_strlit("`");
    reveal_strlit("missing field `kind`");
    assert(codec::missing_field("kind"@) =~= "missing field `kind`"@);
    reveal_strlit("invalid value: ");
    reveal_strlit("integer `");
    reveal_strlit(", expected ");
    reveal_strlit("invalid value: integer `");
    reveal_strlit("`, expected ");
    assert(codec::wrong_value(codec::integer_shown(n), indices) =~= "invalid value: integer `"@
        + text::integer_text(n) + "`, expected "@ + indices);
}

/// A node with a wrong tag is refused with what is wrong with the tag, whatever its fields
/// are. A node with a right tag is never refused for it.
pub proof fn lemma_wrong_tags_are_refused(node: JsonView, nested: bool)
    ensures
        kind_trouble(node, nested) matches Some(message) ==> codec::decoded(node, nested) == Err::<
            FlowView,
            Seq<char>,
        >(message),
        codec::fault(codec::node_kind(node, nested)) == kind_trouble(node, nested),
{
    let names = seq!["spawn"@, "sequence"@, "fork"@, "join"@, "loop"@];
    assert forall|name: Seq<char>| names.contains(name) <==> name == "spawn"@ || name
        == "sequence"@ || name == "fork"@ || name == "join"@ || name == "loop"@ by {
        assert(names[0] == "spawn"@ && names[1] == "sequence"@ && names[2] == "fork"@ && names[3]
            == "join"@ && names[4] == "loop"@);
    }
    let n = match tag_of(node) {
        Some(JsonView::Number(NumberView::Integer(n))) => n,
        _ => 0,
    };
    lemma_tag_messages(n, "variant index 0 <= i < 5"@);
}

// ---------------------------------------------------------------------------
// Spawns and joins
// ---------------------------------------------------------------------------

/// What is wrong with a spawn: an object is read in the order of its keys and then looked
/// through for what is lacking, an array is read in the order of its elements.
pub open spec fn spawn_troubles(node: JsonView) -> Seq<Option<Seq<char>>> {
    let id = text_trouble(filled_in(field(node, 0, "id"@)));
    let label = text_trouble(filled_in(field(node, 1, "label"@)));
    let agent = text_trouble(field(node, 2, "agent"@));
    let task = text_trouble(field(node, 3, "task"@));
    let cwd = text_trouble(filled_in(field(node, 4, "cwd"@)));
    let output = output_trouble(filled_in(field(node, 5, "output"@)));
    let wanted = "struct SpawnSpec with 6 elements"@;
    if node is Array {
        seq![
            place_trouble(node, 0, wanted, id),
            place_trouble(node, 1, wanted, label),
            place_trouble(node, 2, wanted, agent),
            place_trouble(node, 3, wanted, task),
            place_trouble(node, 4, wanted, cwd),
            place_trouble(node, 5, wanted, output),
            excess(node, 6, "6 elements in sequence"@),
        ]
    } else {
        seq![
            agent,
            cwd,
            id,
            label,
            output,
            task,
            absent(field(node, 2, "agent"@), "agent"@),
            absent(field(node, 3, "task"@), "task"@),
        ]
    }
}

/// A spawn is refused exactly where something is wrong with it, with the first of what is.
pub proof fn lemma_spawns_are_refused(node: JsonView, nested: bool)
    requires
        tagged(node, nested, "spawn"@, 0),
    ensures
        said(codec::decoded(node, nested), spawn_troubles(node)),
{
    canonical::lemma_marks();
    lemma_text_troubles(field(node, 0, "id"@));
    lemma_text_troubles(field(node, 1, "label"@));
    lemma_text_troubles(field(node, 2, "agent"@));
    lemma_text_troubles(field(node, 3, "task"@));
    lemma_text_troubles(field(node, 4, "cwd"@));
    lemma_output_troubles(field(node, 5, "output"@));
    assert(codec::spawn_faults(node) =~= spawn_troubles(node));
    lemma_first_is_said(spawn_troubles(node));
}

/// What is wrong with an agent that reduces.
pub open spec fn agent_troubles(node: JsonView) -> Seq<Option<Seq<char>>> {
    let agent = text_trouble(field(node, 0, "agent"@));
    let task = text_trouble(field(node, 1, "task"@));
    let output = output_trouble(filled_in(field(node, 2, "output"@)));
    let wanted = "struct AgentReducer with 3 elements"@;
    if node is Array {
        seq![
            place_trouble(node, 0, wanted, agent),
            place_trouble(node, 1, wanted, task),
            place_trouble(node, 2, wanted, output),
            excess(node, 3, "3 elements in sequence"@),
        ]
    } else {
        seq![
            agent,
            output,
            task,
            absent(field(node, 0, "agent"@), "agent"@),
            absent(field(node, 1, "task"@), "task"@),
        ]
    }
}

/// What is wrong with a field that holds a reducer.
pub open spec fn reducer_trouble(value: Option<JsonView>) -> Option<Seq<char>> {
    match value {
        None => None,
        Some(node) => {
            let tag = tag_trouble(
                node,
                true,
                "internally tagged enum JoinReducer"@,
                seq!["collect"@, "agent"@],
                "`collect` or `agent`"@,
                "variant index 0 <= i < 2"@,
            );
            if tag is Some {
                tag
            } else if tagged(node, true, "agent"@, 1) {
                earliest(agent_troubles(node))
            } else if node is Array {
                excess(node, 0, "0 elements in sequence"@)
            } else {
                None
            }
        },
    }
}

proof fn lemma_reducer_troubles(value: Option<JsonView>)
    ensures
        codec::fault(codec::decoded_reducer_option(codec::given(value))) == reducer_trouble(
            filled_in(value),
        ),
{
    canonical::lemma_marks();
    match filled_in(value) {
        Some(node) => {
            let names = seq!["collect"@, "agent"@];
            assert forall|name: Seq<char>| names.contains(name) <==> name == "collect"@ || name
                == "agent"@ by {
                assert(names[0] == "collect"@ && names[1] == "agent"@);
            }
            let n = match tag_of(node) {
                Some(JsonView::Number(NumberView::Integer(n))) => n,
                _ => 0,
            };
            lemma_tag_messages(n, "variant index 0 <= i < 2"@);
            lemma_text_troubles(field(node, 0, "agent"@));
            lemma_text_troubles(field(node, 1, "task"@));
            lemma_output_troubles(field(node, 2, "output"@));
            assert(codec::agent_faults(node) =~= agent_troubles(node));
            lemma_first_is_said(agent_troubles(node));
            lemma_earliest(codec::decoded_agent(node), agent_troubles(node));
        },
        None => {},
    }
}

/// What is wrong with a join.
pub open spec fn join_troubles(node: JsonView) -> Seq<Option<Seq<char>>> {
    let id = text_trouble(filled_in(field(node, 0, "id"@)));
    let label = text_trouble(filled_in(field(node, 1, "label"@)));
    let from = text_trouble(field(node, 2, "from"@));
    let mode = mode_trouble(field(node, 3, "mode"@));
    let quorum = count_trouble(filled_in(field(node, 4, "quorum"@)));
    let reducer = reducer_trouble(filled_in(field(node, 5, "reducer"@)));
    let policy = policy_trouble(filled_in(field(node, 6, "onFailure"@)));
    let wanted = "struct JoinSpec with 7 elements"@;
    if node is Array {
        seq![
            place_trouble(node, 0, wanted, id),
            place_trouble(node, 1, wanted, label),
            place_trouble(node, 2, wanted, from),
            place_trouble(node, 3, wanted, mode),
            place_trouble(node, 4, wanted, quorum),
            place_trouble(node, 5, wanted, reducer),
            place_trouble(node, 6, wanted, policy),
            excess(node, 7, "7 elements in sequence"@),
        ]
    } else {
        seq![
            from,
            id,
            label,
            mode,
            policy,
            quorum,
            reducer,
            absent(field(node, 2, "from"@), "from"@),
            absent(field(node, 3, "mode"@), "mode"@),
        ]
    }
}

/// A join is refused exactly where something is wrong with it, with the first of what is.
pub proof fn lemma_joins_are_refused(node: JsonView, nested: bool)
    requires
        tagged(node, nested, "join"@, 3),
    ensures
        said(codec::decoded(node, nested), join_troubles(node)),
{
    canonical::lemma_marks();
    lemma_text_troubles(field(node, 0, "id"@));
    lemma_text_troubles(field(node, 1, "label"@));
    lemma_text_troubles(field(node, 2, "from"@));
    lemma_mode_troubles(field(node, 3, "mode"@));
    lemma_count_troubles(field(node, 4, "quorum"@));
    lemma_reducer_troubles(field(node, 5, "reducer"@));
    lemma_policy_troubles(field(node, 6, "onFailure"@));
    assert(codec::join_faults(node) =~= join_troubles(node));
    lemma_first_is_said(join_troubles(node));
}

// ---------------------------------------------------------------------------
// Sequences, forks and loops
// ---------------------------------------------------------------------------

/// What is wrong with a node inside another.
pub open spec fn node_trouble(node: JsonView) -> Option<Seq<char>> {
    match codec::decoded(node, true) {
        Ok(_) => None,
        Err(message) => Some(message),
    }
}

/// What is wrong with a field that holds steps: the trouble of the first step that has
/// any.
pub open spec fn steps_trouble(value: Option<JsonView>) -> Option<Seq<char>> {
    match value {
        None => None,
        Some(JsonView::Array(items)) => earliest(
            Seq::new(items.len(), |i: int| node_trouble(items[i])),
        ),
        Some(value) => unfit(value, "a sequence"@),
    }
}

/// What is wrong with a field that holds branches: the trouble of the first branch that
/// has any.
pub open spec fn branches_trouble(value: Option<JsonView>) -> Option<Seq<char>> {
    match value {
        None => None,
        Some(JsonView::Object(entries)) => earliest(
            Seq::new(entries.len(), |i: int| node_trouble(entries[i].1)),
        ),
        Some(value) => unfit(value, "a map"@),
    }
}

/// What is wrong with a field that holds a body.
pub open spec fn body_trouble(value: Option<JsonView>) -> Option<Seq<char>> {
    match value {
        None => None,
        Some(node) => node_trouble(node),
    }
}

proof fn lemma_steps_are_said(items: Seq<JsonView>, n: nat)
    requires
        n <= items.len(),
    ensures
        said(
            codec::decoded_steps(JsonView::Array(items), n),
            Seq::new(n, |i: int| node_trouble(items[i])),
        ),
    decreases n,
{
    if n > 0 {
        lemma_steps_are_said(items, (n - 1) as nat);
        let all = JsonView::Array(items);
        let troubles = Seq::new(n, |i: int| node_trouble(items[i]));
        let fewer = Seq::new((n - 1) as nat, |i: int| node_trouble(items[i]));
        assert(forall|i: int| 0 <= i < n - 1 ==> fewer[i] == troubles[i]);
        match codec::decoded_steps(all, (n - 1) as nat) {
            Ok(done) => {
                assert forall|i: int| 0 <= i < n - 1 implies (#[trigger] troubles[i]) is None by {
                    assert(fewer[i] is None);
                }
                match codec::decoded(items[n - 1], true) {
                    Ok(step) => {
                        assert(troubles[n - 1] is None);
                    },
                    Err(message) => {
                        assert(troubles[n - 1] == Some(message));
                        assert(codec::decoded_steps(all, n) == Err::<Seq<FlowView>, Seq<char>>(
                            message,
                        ));
                    },
                }
            },
            Err(message) => {
                let k = choose|k: int|
                    #![trigger fewer[k]]
                    0 <= k < fewer.len() && fewer[k] == Some(message) && forall|j: int|
                        0 <= j < k ==> (#[trigger] fewer[j]) is None;
                assert forall|j: int| 0 <= j < k implies (#[trigger] troubles[j]) is None by {
                    assert(fewer[j] is None);
                }
                assert(troubles[k] == Some(message));
            },
        }
    }
}

proof fn lemma_branches_are_said(entries: Seq<(Seq<char>, JsonView)>, n: nat)
    requires
        n <= entries.len(),
    ensures
        said(
            codec::decoded_branches(JsonView::Object(entries), n),
            Seq::new(n, |i: int| node_trouble(entries[i].1)),
        ),
    decreases n,
{
    if n > 0 {
        lemma_branches_are_said(entries, (n - 1) as nat);
        let all = JsonView::Object(entries);
        let troubles = Seq::new(n, |i: int| node_trouble(entries[i].1));
        let fewer = Seq::new((n - 1) as nat, |i: int| node_trouble(entries[i].1));
        assert(forall|i: int| 0 <= i < n - 1 ==> fewer[i] == troubles[i]);
        match codec::decoded_branches(all, (n - 1) as nat) {
            Ok(done) => {
                assert forall|i: int| 0 <= i < n - 1 implies (#[trigger] troubles[i]) is None by {
                    assert(fewer[i] is None);
                }
                match codec::decoded(entries[n - 1].1, true) {
                    Ok(branch) => {
                        assert(troubles[n - 1] is None);
                    },
                    Err(message) => {
                        assert(troubles[n - 1] == Some(message));
                        assert(codec::decoded_branches(all, n) == Err::<
                            Seq<(Seq<char>, FlowView)>,
                            Seq<char>,
                        >(message));
                    },
                }
            },
            Err(message) => {
                let k = choose|k: int|
                    #![trigger fewer[k]]
                    0 <= k < fewer.len() && fewer[k] == Some(message) && forall|j: int|
                        0 <= j < k ==> (#[trigger] fewer[j]) is None;
                assert forall|j: int| 0 <= j < k implies (#[trigger] troubles[j]) is None by {
                    assert(fewer[j] is None);
                }
                assert(troubles[k] == Some(message));
            },
        }
    }
}

/// What is wrong with a sequence.
pub open spec fn sequence_troubles(node: JsonView) -> Seq<Option<Seq<char>>> {
    let id = text_trouble(filled_in(field(node, 0, "id"@)));
    let label = text_trouble(filled_in(field(node, 1, "label"@)));
    let steps = steps_trouble(field(node, 2, "steps"@));
    let wanted = "struct SequenceSpec with 3 elements"@;
    if node is Array {
        seq![
            place_trouble(node, 0, wanted, id),
            place_trouble(node, 1, wanted, label),
            place_trouble(node, 2, wanted, steps),
            excess(node, 3, "3 elements in sequence"@),
        ]
    } else {
        seq![id, label, steps, absent(field(node, 2, "steps"@), "steps"@)]
    }
}

/// A sequence is refused exactly where something is wrong with it or with one of its
/// steps, with the first of what is.
pub proof fn lemma_sequences_are_refused(node: JsonView, nested: bool)
    requires
        tagged(node, nested, "sequence"@, 1),
    ensures
        said(codec::decoded(node, nested), sequence_troubles(node)),
{
    canonical::lemma_marks();
    lemma_text_troubles(field(node, 0, "id"@));
    lemma_text_troubles(field(node, 1, "label"@));
    let steps = field(node, 2, "steps"@);
    let read = match steps {
        None => Ok(None),
        Some(JsonView::Array(items)) => codec::present(
            codec::decoded_steps(steps->0, items.len()),
        ),
        Some(other) => Err(codec::wrong_type(other, "a sequence"@)),
    };
    match steps {
        Some(JsonView::Array(items)) => {
            lemma_steps_are_said(items, items.len());
            lemma_earliest(
                codec::decoded_steps(steps->0, items.len()),
                Seq::new(items.len(), |i: int| node_trouble(items[i])),
            );
        },
        _ => {},
    }
    assert(codec::fault(read) == steps_trouble(steps));
    assert(codec::node_kind(node, nested) == Ok::<NodeKind, Seq<char>>(NodeKind::Sequence));
    assert(codec::decoded(node, nested) == codec::assembled_sequence(node, read));
    assert(codec::sequence_faults(node, read) =~= sequence_troubles(node));
    lemma_first_is_said(sequence_troubles(node));
}

/// What is wrong with a fork.
pub open spec fn fork_troubles(node: JsonView) -> Seq<Option<Seq<char>>> {
    let id = text_trouble(field(node, 0, "id"@));
    let label = text_trouble(filled_in(field(node, 1, "label"@)));
    let branches = branches_trouble(field(node, 2, "branches"@));
    let concurrency = count_trouble(filled_in(field(node, 3, "concurrency"@)));
    let wanted = "struct ForkSpec with 4 elements"@;
    if node is Array {
        seq![
            place_trouble(node, 0, wanted, id),
            place_trouble(node, 1, wanted, label),
            place_trouble(node, 2, wanted, branches),
            place_trouble(node, 3, wanted, concurrency),
            excess(node, 4, "4 elements in sequence"@),
        ]
    } else {
        seq![
            branches,
            concurrency,
            id,
            label,
            absent(field(node, 0, "id"@), "id"@),
            absent(field(node, 2, "branches"@), "branches"@),
        ]
    }
}

/// A fork is refused exactly where something is wrong with it or with one of its branches,
/// with the first of what is.
pub proof fn lemma_forks_are_refused(node: JsonView, nested: bool)
    requires
        tagged(node, nested, "fork"@, 2),
    ensures
        said(codec::decoded(node, nested), fork_troubles(node)),
{
    canonical::lemma_marks();
    lemma_text_troubles(field(node, 0, "id"@));
    lemma_text_troubles(field(node, 1, "label"@));
    lemma_count_troubles(field(node, 3, "concurrency"@));
    let branches = field(node, 2, "branches"@);
    let read = match branches {
        None => Ok(None),
        Some(JsonView::Object(entries)) => codec::present(
            codec::decoded_branches(branches->0, entries.len()),
        ),
        Some(other) => Err(codec::wrong_type(other, "a map"@)),
    };
    match branches {
        Some(JsonView::Object(entries)) => {
            lemma_branches_are_said(entries, entries.len());
            lemma_earliest(
                codec::decoded_branches(branches->0, entries.len()),
                Seq::new(entries.len(), |i: int| node_trouble(entries[i].1)),
            );
        },
        _ => {},
    }
    assert(codec::fault(read) == branches_trouble(branches));
    assert(codec::node_kind(node, nested) == Ok::<NodeKind, Seq<char>>(NodeKind::Fork));
    assert(codec::decoded(node, nested) == codec::assembled_fork(node, read));
    assert(codec::fork_faults(node, read) =~= fork_troubles(node));
    lemma_first_is_said(fork_troubles(node));
}

/// What is wrong with a loop. Nothing can be wrong with its condition.
pub open spec fn loop_troubles(node: JsonView) -> Seq<Option<Seq<char>>> {
    let id = text_trouble(field(node, 0, "id"@));
    let label = text_trouble(filled_in(field(node, 1, "label"@)));
    let body = body_trouble(field(node, 2, "body"@));
    let bound = count_trouble(field(node, 3, "maxIterations"@));
    let wanted = "struct LoopSpec with 5 elements"@;
    if node is Array {
        seq![
            place_trouble(node, 0, wanted, id),
            place_trouble(node, 1, wanted, label),
            place_trouble(node, 2, wanted, body),
            place_trouble(node, 3, wanted, bound),
            place_trouble(node, 4, wanted, None),
            excess(node, 5, "5 elements in sequence"@),
        ]
    } else {
        seq![
            body,
            id,
            label,
            bound,
            absent(field(node, 0, "id"@), "id"@),
            absent(field(node, 2, "body"@), "body"@),
            absent(field(node, 3, "maxIterations"@), "maxIterations"@),
        ]
    }
}

/// A loop is refused exactly where something is wrong with it or with its body, with the
/// first of what is.
pub proof fn lemma_loops_are_refused(node: JsonView, nested: bool)
    requires
        tagged(node, nested, "loop"@, 4),
    ensures
        said(codec::decoded(node, nested), loop_troubles(node)),
{
    canonical::lemma_marks();
    lemma_text_troubles(field(node, 0, "id"@));
    lemma_text_troubles(field(node, 1, "label"@));
    lemma_count_troubles(field(node, 3, "maxIterations"@));
    let body = field(node, 2, "body"@);
    let read = match body {
        None => Ok(None),
        Some(body) => codec::present(codec::decoded(body, true)),
    };
    assert(codec::fault(read) == body_trouble(body));
    assert(codec::node_kind(node, nested) == Ok::<NodeKind, Seq<char>>(NodeKind::Loop));
    assert(codec::decoded(node, nested) == codec::assembled_loop(node, read));
    assert(codec::loop_faults(node, read) =~= loop_troubles(node));
    lemma_first_is_said(loop_troubles(node));
}

} // verus!
