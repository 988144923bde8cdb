//! The workflow graph: what a flow is made of.

use vstd::prelude::*;
use vstd::string::*;
use crate::json::{Json, JsonView};
use crate::ordered;
use crate::ordered::SortedMap;

verus! {

broadcast use vstd::string::group_string_axioms;

/// Per-spawn output typing. `Text` (the default) returns the agent's raw text;
/// `Json` reads the reply as JSON and fails the node if it is not.
#[derive(Debug, Clone, Copy, PartialEq, Eq, Structural)]
pub enum OutputMode {
    Text,
    Json,
}

/// When a join counts as satisfied.
#[derive(Debug, Clone, Copy, PartialEq, Eq, Structural)]
pub enum JoinMode {
    /// No branch failed.
    All,
    /// Some branch succeeded.
    Any,
    /// At least `quorum` branches succeeded.
    Quorum,
}

/// What an unsatisfied join does.
#[derive(Debug, Clone, Copy, PartialEq, Eq, Structural)]
pub enum OnFailure {
    /// Fail.
    FailFast,
    /// Go on with what succeeded, if anything did.
    CollectErrors,
}

/// The kinds of node.
#[derive(Debug, Clone, Copy, PartialEq, Eq, Structural)]
pub enum NodeKind {
    Spawn,
    Sequence,
    Fork,
    Join,
    Loop,
}

/// Hand one task to one agent.
#[derive(Debug, PartialEq)]
pub struct SpawnSpec {
    pub id: Option<String>,
    pub label: Option<String>,
    pub agent: String,
    pub task: String,
    pub cwd: Option<String>,
    pub output: Option<OutputMode>,
}

/// Run steps one after the other.
#[derive(Debug, PartialEq)]
pub struct SequenceSpec {
    pub id: Option<String>,
    pub label: Option<String>,
    pub steps: Vec<FlowSpec>,
}

/// Run branches side by side.
#[derive(Debug, PartialEq)]
pub struct ForkSpec {
    /// The id by which a join refers to this fork.
    pub id: String,
    pub label: Option<String>,
    /// The branches, in key order.
    pub branches: SortedMap<FlowSpec>,
    pub concurrency: Option<usize>,
}

/// An agent that folds the results of a fork.
#[derive(Debug, PartialEq)]
pub struct AgentReducer {
    pub agent: String,
    pub task: String,
    pub output: Option<OutputMode>,
}

/// How a join folds the fork's branch results.
#[derive(Debug, PartialEq)]
pub enum JoinReducer {
    /// Return the `{branches, errors}` structure as it is.
    Collect,
    /// Route the collected results through one more agent.
    Agent(AgentReducer),
}

/// Fold the results of a fork that has run.
#[derive(Debug, PartialEq)]
pub struct JoinSpec {
    pub id: Option<String>,
    pub label: Option<String>,
    /// The id of the fork whose results to collect.
    pub from: String,
    pub mode: JoinMode,
    pub quorum: Option<usize>,
    pub reducer: Option<JoinReducer>,
    pub on_failure: Option<OnFailure>,
}

/// Repeat a flow. Kept so that a flow file with a loop can be read and written;
/// the executor refuses it.
#[derive(Debug, PartialEq)]
pub struct LoopSpec {
    pub id: String,
    pub label: Option<String>,
    pub body: Box<FlowSpec>,
    pub max_iterations: usize,
    pub continue_when: Option<Json>,
}

/// A node of the workflow graph.
#[derive(Debug, PartialEq)]
pub enum FlowSpec {
    Spawn(SpawnSpec),
    Sequence(SequenceSpec),
    Fork(ForkSpec),
    Join(JoinSpec),
    Loop(LoopSpec),
}

// ---------------------------------------------------------------------------
// Mathematical content
// ---------------------------------------------------------------------------

/// The content of an optional text.
pub open spec fn text_option(text: Option<String>) -> Option<Seq<char>> {
    match text {
        Some(text) => Some(text@),
        None => None,
    }
}

/// The content of a [`SpawnSpec`].
pub struct SpawnView {
    pub id: Option<Seq<char>>,
    pub label: Option<Seq<char>>,
    pub agent: Seq<char>,
    pub task: Seq<char>,
    pub cwd: Option<Seq<char>>,
    pub output: Option<OutputMode>,
}

/// The content of a [`SequenceSpec`].
pub struct SequenceView {
    pub id: Option<Seq<char>>,
    pub label: Option<Seq<char>>,
    pub steps: Seq<FlowView>,
}

/// The content of a [`ForkSpec`].
pub struct ForkView {
    pub id: Seq<char>,
    pub label: Option<Seq<char>>,
    pub branches: Seq<(Seq<char>, FlowView)>,
    pub concurrency: Option<usize>,
}

/// The content of an [`AgentReducer`].
pub struct AgentReducerView {
    pub agent: Seq<char>,
    pub task: Seq<char>,
    pub output: Option<OutputMode>,
}

/// The content of a [`JoinReducer`].
pub enum ReducerView {
    Collect,
    Agent(AgentReducerView),
}

/// The content of a [`JoinSpec`].
pub struct JoinView {
    pub id: Option<Seq<char>>,
    pub label: Option<Seq<char>>,
    pub from: Seq<char>,
    pub mode: JoinMode,
    pub quorum: Option<usize>,
    pub reducer: Option<ReducerView>,
    pub on_failure: Option<OnFailure>,
}

/// The content of a [`LoopSpec`].
pub struct LoopView {
    pub id: Seq<char>,
    pub label: Option<Seq<char>>,
    pub body: Box<FlowView>,
    pub max_iterations: usize,
    pub continue_when: Option<JsonView>,
}

/// The content of a [`FlowSpec`].
pub enum FlowView {
    Spawn(SpawnView),
    Sequence(SequenceView),
    Fork(ForkView),
    Join(JoinView),
    Loop(LoopView),
}

impl AgentReducer {
    pub open spec fn view(self) -> AgentReducerView {
        AgentReducerView { agent: self.agent@, task: self.task@, output: self.output }
    }
}

impl JoinReducer {
    pub open spec fn view(self) -> ReducerView {
        match self {
            JoinReducer::Collect => ReducerView::Collect,
            JoinReducer::Agent(reducer) => ReducerView::Agent(reducer@),
        }
    }
}

impl SpawnSpec {
    pub open spec fn view(self) -> SpawnView {
        SpawnView {
            id: text_option(self.id),
            label: text_option(self.label),
            agent: self.agent@,
            task: self.task@,
            cwd: text_option(self.cwd),
            output: self.output,
        }
    }
}

impl JoinSpec {
    pub open spec fn view(self) -> JoinView {
        JoinView {
            id: text_option(self.id),
            label: text_option(self.label),
            from: self.from@,
            mode: self.mode,
            quorum: self.quorum,
            reducer: match self.reducer {
                Some(reducer) => Some(reducer@),
                None => None,
            },
            on_failure: self.on_failure,
        }
    }
}

/// The content of a list of flows.
pub open spec fn flow_views(flows: Seq<FlowSpec>) -> Seq<FlowView> {
    Seq::new(flows.len(), |i: int| flows[i].view())
}

/// The content of a fork's branches.
pub open spec fn branch_views(branches: SortedMap<FlowSpec>) -> Seq<(Seq<char>, FlowView)> {
    ordered::mapped(branches@, |flow: FlowSpec| flow.view())
}

impl FlowSpec {
    /// The mathematical content.
    pub open spec fn view(self) -> FlowView
        decreases self,
    {
        match self {
            FlowSpec::Spawn(s) => FlowView::Spawn(s@),
            FlowSpec::Sequence(s) => FlowView::Sequence(
                SequenceView {
                    id: text_option(s.id),
                    label: text_option(s.label),
                    steps: Seq::new(
                        s.steps@.len(),
                        |i: int|
                            if 0 <= i < s.steps@.len() {
                                s.steps@[i].view()
                            } else {
                                arbitrary()
                            },
                    ),
                },
            ),
            FlowSpec::Fork(f) => FlowView::Fork(
                ForkView {
                    id: f.id@,
                    label: text_option(f.label),
                    branches: Seq::new(
                        f.branches.pairs().len(),
                        |i: int|
                            if 0 <= i < f.branches.pairs().len() {
                                proof {
                                    f.branches.lemma_value_smaller(i);
                                }
                                (f.branches.pairs()[i].0@, f.branches.pairs()[i].1.view())
                            } else {
                                arbitrary()
                            },
                    ),
                    concurrency: f.concurrency,
                },
            ),
            FlowSpec::Join(j) => FlowView::Join(j@),
            FlowSpec::Loop(l) => FlowView::Loop(
                LoopView {
                    id: l.id@,
                    label: text_option(l.label),
                    body: Box::new(l.body.view()),
                    max_iterations: l.max_iterations,
                    continue_when: match l.continue_when {
                        Some(value) => Some(value@),
                        None => None,
                    },
                },
            ),
        }
    }

    /// The content of steps and branches, one by one.
    pub proof fn lemma_view(self)
        ensures
            match self {
                FlowSpec::Sequence(s) => self.view()->Sequence_0.steps == flow_views(s.steps@),
                FlowSpec::Fork(f) => self.view()->Fork_0.branches == branch_views(f.branches),
                _ => true,
            },
    {
        match self {
            FlowSpec::Sequence(s) => {
                assert(self.view()->Sequence_0.steps =~= flow_views(s.steps@));
            },
            FlowSpec::Fork(f) => {
                assert(self.view()->Fork_0.branches =~= branch_views(f.branches));
            },
            _ => {},
        }
    }

    /// The name of the node's kind.
    pub fn kind_str(&self) -> (name: &'static str)
        ensures
            name@ == self@.kind().name(),
    {
        match self {
            FlowSpec::Spawn(_) => "spawn",
            FlowSpec::Sequence(_) => "sequence",
            FlowSpec::Fork(_) => "fork",
            FlowSpec::Join(_) => "join",
            FlowSpec::Loop(_) => "loop",
        }
    }

    /// The kind of the node.
    pub fn kind(&self) -> (kind: NodeKind)
        ensures
            kind == self@.kind(),
    {
        match self {
            FlowSpec::Spawn(_) => NodeKind::Spawn,
            FlowSpec::Sequence(_) => NodeKind::Sequence,
            FlowSpec::Fork(_) => NodeKind::Fork,
            FlowSpec::Join(_) => NodeKind::Join,
            FlowSpec::Loop(_) => NodeKind::Loop,
        }
    }

    /// The node's id. Forks and loops always have one.
    pub fn id(&self) -> (id: Option<&str>)
        ensures
            match id {
                Some(id) => self@.id() == Some(id@),
                None => self@.id() is None,
            },
    {
        match self {
            FlowSpec::Spawn(s) => optional_str(&s.id),
            FlowSpec::Sequence(s) => optional_str(&s.id),
            FlowSpec::Fork(f) => Some(f.id.as_str()),
            FlowSpec::Join(j) => optional_str(&j.id),
            FlowSpec::Loop(l) => Some(l.id.as_str()),
        }
    }
}

/// An optional text, borrowed.
pub fn optional_str(text: &Option<String>) -> (borrowed: Option<&str>)
    ensures
        match borrowed {
            Some(borrowed) => text_option(*text) == Some(borrowed@),
            None => text_option(*text) is None,
        },
{
    match text {
        Some(text) => Some(text.as_str()),
        None => None,
    }
}

impl NodeKind {
    /// The name of a kind, as it stands in a flow file.
    pub open spec fn name(self) -> Seq<char> {
        match self {
            NodeKind::Spawn => "spawn"@,
            NodeKind::Sequence => "sequence"@,
            NodeKind::Fork => "fork"@,
            NodeKind::Join => "join"@,
            NodeKind::Loop => "loop"@,
        }
    }

    /// The name of a kind, as it stands in a flow file.
    pub fn as_str(&self) -> (name: &'static str)
        ensures
            name@ == self.name(),
    {
        match self {
            NodeKind::Spawn => "spawn",
            NodeKind::Sequence => "sequence",
            NodeKind::Fork => "fork",
            NodeKind::Join => "join",
            NodeKind::Loop => "loop",
        }
    }
}

impl FlowView {
    /// The kind of the node.
    pub open spec fn kind(self) -> NodeKind {
        match self {
            FlowView::Spawn(_) => NodeKind::Spawn,
            FlowView::Sequence(_) => NodeKind::Sequence,
            FlowView::Fork(_) => NodeKind::Fork,
            FlowView::Join(_) => NodeKind::Join,
            FlowView::Loop(_) => NodeKind::Loop,
        }
    }

    /// The node's id.
    pub open spec fn id(self) -> Option<Seq<char>> {
        match self {
            FlowView::Spawn(s) => s.id,
            FlowView::Sequence(s) => s.id,
            FlowView::Fork(f) => Some(f.id),
            FlowView::Join(j) => j.id,
            FlowView::Loop(l) => Some(l.id),
        }
    }
}

// ---------------------------------------------------------------------------
// Copies
// ---------------------------------------------------------------------------

/// A copy of an optional text.
pub fn copied_text(text: &Option<String>) -> (copy: Option<String>)
    ensures
        text_option(copy) == text_option(*text),
{
    match text {
        Some(text) => Some(text.clone()),
        None => None,
    }
}

impl Clone for SpawnSpec {
    fn clone(&self) -> (copy: SpawnSpec)
        ensures
            copy@ == self@,
    {
        SpawnSpec {
            id: copied_text(&self.id),
            label: copied_text(&self.label),
            agent: self.agent.clone(),
            task: self.task.clone(),
            cwd: copied_text(&self.cwd),
            output: self.output,
        }
    }
}

impl Clone for AgentReducer {
    fn clone(&self) -> (copy: AgentReducer)
        ensures
            copy@ == self@,
    {
        AgentReducer { agent: self.agent.clone(), task: self.task.clone(), output: self.output }
    }
}

impl Clone for JoinReducer {
    fn clone(&self) -> (copy: JoinReducer)
        ensures
            copy@ == self@,
    {
        match self {
            JoinReducer::Collect => JoinReducer::Collect,
            JoinReducer::Agent(reducer) => JoinReducer::Agent(reducer.clone()),
        }
    }
}

impl Clone for JoinSpec {
    fn clone(&self) -> (copy: JoinSpec)
        ensures
            copy@ == self@,
    {
        let reducer = match &self.reducer {
            Some(reducer) => Some(reducer.clone()),
            None => None,
        };
        JoinSpec {
            id: copied_text(&self.id),
            label: copied_text(&self.label),
            from: self.from.clone(),
            mode: self.mode,
            quorum: self.quorum,
            reducer,
            on_failure: self.on_failure,
        }
    }
}

impl Clone for FlowSpec {
    fn clone(&self) -> (copy: FlowSpec)
        ensures
            copy@ == self@,
        decreases self@, 0nat,
    {
        proof {
            self.lemma_view();
        }
        match self {
            FlowSpec::Spawn(s) => FlowSpec::Spawn(s.clone()),
            FlowSpec::Join(j) => FlowSpec::Join(j.clone()),
            FlowSpec::Sequence(s) => {
                proof {
                    assert(decreases_to!(self@ => self@->Sequence_0));
                    assert(decreases_to!(self@->Sequence_0 => self@->Sequence_0.steps));
                }
                let copy = FlowSpec::Sequence(
                    SequenceSpec {
                        id: copied_text(&s.id),
                        label: copied_text(&s.label),
                        steps: copied_flows(&s.steps),
                    },
                );
                proof {
                    copy.lemma_view();
                }
                copy
            },
            FlowSpec::Fork(f) => {
                proof {
                    assert(decreases_to!(self@ => self@->Fork_0));
                    assert(decreases_to!(self@->Fork_0 => self@->Fork_0.branches));
                }
                let copy = FlowSpec::Fork(
                    ForkSpec {
                        id: f.id.clone(),
                        label: copied_text(&f.label),
                        branches: copied_branches(&f.branches),
                        concurrency: f.concurrency,
                    },
                );
                proof {
                    copy.lemma_view();
                }
                copy
            },
            FlowSpec::Loop(l) => {
                proof {
                    assert(decreases_to!(self@ => self@->Loop_0));
                    assert(decreases_to!(self@->Loop_0 => self@->Loop_0.body));
                }
                let continue_when = match &l.continue_when {
                    Some(value) => Some(value.clone()),
                    None => None,
                };
                let body: &FlowSpec = &l.body;
                FlowSpec::Loop(
                    LoopSpec {
                        id: l.id.clone(),
                        label: copied_text(&l.label),
                        body: Box::new(body.clone()),
                        max_iterations: l.max_iterations,
                        continue_when,
                    },
                )
            },
        }
    }
}

fn copied_flows(flows: &Vec<FlowSpec>) -> (copies: Vec<FlowSpec>)
    ensures
        flow_views(copies@) == flow_views(flows@),
    decreases flow_views(flows@), flows@.len() + 1,
{
    let ghost all = flow_views(flows@);
    let mut copies: Vec<FlowSpec> = Vec::new();
    let mut i: usize = 0;
    while i < flows.len()
        invariant
            all == flow_views(flows@),
            i <= flows@.len(),
            copies@.len() == i,
            forall|j: int| 0 <= j < i ==> (#[trigger] copies@[j])@ == flows@[j]@,
        decreases flows@.len() - i,
    {
        proof {
            assert(decreases_to!(all => all[i as int]));
        }
        copies.push(flows[i].clone());
        i += 1;
    }
    assert(flow_views(copies@) =~= flow_views(flows@));
    copies
}

fn copied_branches(branches: &SortedMap<FlowSpec>) -> (copies: SortedMap<FlowSpec>)
    ensures
        branch_views(copies) == branch_views(*branches),
    decreases branch_views(*branches), branches@.len() + 1,
{
    let ghost all = branch_views(*branches);
    branches.reveal_order();
    let mut copies: SortedMap<FlowSpec> = SortedMap::new();
    let mut i: usize = 0;
    assert(branch_views(copies) =~= all.take(0));
    while i < branches.len()
        invariant
            all == branch_views(*branches),
            ordered::ascending(branches@),
            i <= branches@.len(),
            branch_views(copies) == all.take(i as int),
        decreases branches@.len() - i,
    {
        proof {
            assert(decreases_to!(all => all[i as int]));
            assert(decreases_to!(all[i as int] => all[i as int].1));
        }
        let key = branches.key_at(i).clone();
        let branch = branches.value_at(i).clone();
        proof {
            ordered::lemma_put_next(all, i as int);
            ordered::lemma_put_mapped(copies@, |flow: FlowSpec| flow.view(), key@, branch);
        }
        let _ = copies.insert(key, branch);
        i += 1;
    }
    assert(all.take(branches@.len() as int) =~= all);
    copies
}

impl Clone for SequenceSpec {
    fn clone(&self) -> (copy: SequenceSpec)
        ensures
            text_option(copy.id) == text_option(self.id),
            text_option(copy.label) == text_option(self.label),
            flow_views(copy.steps@) == flow_views(self.steps@),
    {
        SequenceSpec {
            id: copied_text(&self.id),
            label: copied_text(&self.label),
            steps: copied_flows(&self.steps),
        }
    }
}

impl Clone for ForkSpec {
    fn clone(&self) -> (copy: ForkSpec)
        ensures
            copy.id@ == self.id@,
            text_option(copy.label) == text_option(self.label),
            branch_views(copy.branches) == branch_views(self.branches),
            copy.concurrency == self.concurrency,
    {
        ForkSpec {
            id: self.id.clone(),
            label: copied_text(&self.label),
            branches: copied_branches(&self.branches),
            concurrency: self.concurrency,
        }
    }
}

impl Clone for LoopSpec {
    fn clone(&self) -> (copy: LoopSpec)
        ensures
            FlowSpec::Loop(copy)@ == FlowSpec::Loop(*self)@,
    {
        let continue_when = match &self.continue_when {
            Some(value) => Some(value.clone()),
            None => None,
        };
        let body: &FlowSpec = &self.body;
        LoopSpec {
            id: self.id.clone(),
            label: copied_text(&self.label),
            body: Box::new(body.clone()),
            max_iterations: self.max_iterations,
            continue_when,
        }
    }
}

} // verus!
