//! The extensions that contribute tools: the orchestrator with its `workflow`
//! tool, and one extension for each configured MCP server.

use std::sync::Arc;
use vstd::prelude::*;
use vstd::string::*;
use crate::text;
use crate::workflow::WorkflowTool;

verus! {

broadcast use vstd::string::group_string_axioms;

/// What an extension can hook into.
#[derive(Debug, Clone, Copy, PartialEq, Eq, Structural)]
pub enum HookKind {
    Tool,
}

/// Where an extension comes from.
#[derive(Debug, PartialEq)]
pub enum ExtensionRef {
    /// It is built in, under this name.
    Builtin(String),
}

impl ExtensionRef {
    /// The reference to a built-in extension.
    pub fn builtin(name: &str) -> (reference: ExtensionRef)
        ensures
            reference matches ExtensionRef::Builtin(own) && own@ == name@,
    {
        ExtensionRef::Builtin(name.to_owned())
    }
}

/// What an extension says of itself.
#[derive(Debug, PartialEq)]
pub struct ExtensionManifest {
    pub name: String,
    pub extension_ref: ExtensionRef,
    pub supported_hooks: Vec<HookKind>,
    pub required_capabilities: Vec<String>,
    pub requested_capabilities: Vec<String>,
    pub provides_capabilities: Vec<String>,
}

/// The manifest of a built-in extension that contributes tools, and neither
/// needs, asks for nor provides capabilities.
pub open spec fn tool_manifest(manifest: ExtensionManifest, name: Seq<char>) -> bool {
    &&& manifest.name@ == name
    &&& manifest.extension_ref matches ExtensionRef::Builtin(own) && own@ == name
    &&& manifest.supported_hooks@ == seq![HookKind::Tool]
    &&& manifest.required_capabilities@.len() == 0
    &&& manifest.requested_capabilities@.len() == 0
    &&& manifest.provides_capabilities@.len() == 0
}

fn tool_hooks() -> (hooks: Vec<HookKind>)
    ensures
        hooks@ == seq![HookKind::Tool],
{
    let mut hooks: Vec<HookKind> = Vec::new();
    hooks.push(HookKind::Tool);
    assert(hooks@ =~= seq![HookKind::Tool]);
    hooks
}

fn build_manifest(name: &str) -> (manifest: ExtensionManifest)
    ensures
        tool_manifest(manifest, name@),
{
    ExtensionManifest {
        name: name.to_owned(),
        extension_ref: ExtensionRef::builtin(name),
        supported_hooks: tool_hooks(),
        required_capabilities: Vec::new(),
        requested_capabilities: Vec::new(),
        provides_capabilities: Vec::new(),
    }
}

// ---------------------------------------------------------------------------
// The orchestrator
// ---------------------------------------------------------------------------

/// What is needed to hand a task to an agent.
#[derive(Debug, PartialEq)]
pub struct SpawnAgent<C, B, S> {
    pub server: C,
    pub backend: B,
    pub security: S,
}

/// The orchestrator extension. It is made with what its tool needs to reach
/// agents; the cell is filled in once the server is up.
pub struct OrchestratorExtension<C, B, S> {
    spawn_server_cell: C,
    backend: B,
    security: S,
}

/// The orchestrator, instantiated.
pub struct OrchestratorInstance<C, B, S> {
    manifest: ExtensionManifest,
    spawn: Arc<SpawnAgent<C, B, S>>,
}

impl<C, B, S> OrchestratorExtension<C, B, S> {
    /// The cell of the server.
    pub closed spec fn cell(self) -> C {
        self.spawn_server_cell
    }

    /// The backends.
    pub closed spec fn backend(self) -> B {
        self.backend
    }

    /// The security context.
    pub closed spec fn security(self) -> S {
        self.security
    }

    /// An orchestrator that reaches agents through these.
    pub fn new(spawn_server_cell: C, backend: B, security: S) -> (extension: Self)
        ensures
            extension.cell() == spawn_server_cell,
            extension.backend() == backend,
            extension.security() == security,
    {
        OrchestratorExtension { spawn_server_cell, backend, security }
    }

    /// The extension's name.
    pub fn name(&self) -> (name: &'static str)
        ensures
            name@ == "orchestrator"@,
    {
        "orchestrator"
    }

    /// What the extension hooks into.
    pub fn supported_hooks(&self) -> (hooks: Vec<HookKind>)
        ensures
            hooks@ == seq![HookKind::Tool],
    {
        tool_hooks()
    }

    /// What the extension says of itself.
    pub fn manifest(&self) -> (manifest: ExtensionManifest)
        ensures
            tool_manifest(manifest, "orchestrator"@),
    {
        build_manifest(self.name())
    }
}

impl<C: Clone, B: Clone, S: Clone> OrchestratorExtension<C, B, S> {
    /// An instance with copies of what the extension was made with.
    pub fn instantiate(&self) -> (instance: OrchestratorInstance<C, B, S>)
        ensures
            tool_manifest(instance.described(), "orchestrator"@),
            cloned(self.cell(), instance.agent().server),
            cloned(self.backend(), instance.agent().backend),
            cloned(self.security(), instance.agent().security),
    {
        OrchestratorInstance {
            manifest: self.manifest(),
            spawn: Arc::new(
                SpawnAgent {
                    server: self.spawn_server_cell.clone(),
                    backend: self.backend.clone(),
                    security: self.security.clone(),
                },
            ),
        }
    }
}

impl<C, B, S> OrchestratorInstance<C, B, S> {
    /// The manifest it was made with.
    pub closed spec fn described(self) -> ExtensionManifest {
        self.manifest
    }

    /// What it hands tasks to agents with.
    pub closed spec fn agent(self) -> SpawnAgent<C, B, S> {
        *self.spawn
    }

    /// What the extension says of itself.
    pub fn manifest(&self) -> (manifest: &ExtensionManifest)
        ensures
            *manifest == self.described(),
    {
        &self.manifest
    }

    /// What the instance hands tasks to agents with.
    pub fn spawn(&self) -> (spawn: &SpawnAgent<C, B, S>)
        ensures
            *spawn == self.agent(),
    {
        &self.spawn
    }

    /// The tools that the instance contributes: the workflow tool, which hands tasks
    /// to agents with what the instance does.
    pub fn tools(&self) -> (tools: Vec<WorkflowTool<SpawnAgent<C, B, S>>>)
        ensures
            tools@.len() == 1,
            *tools@[0].delegate == self.agent(),
    {
        let mut tools: Vec<WorkflowTool<SpawnAgent<C, B, S>>> = Vec::new();
        tools.push(WorkflowTool { delegate: Arc::clone(&self.spawn) });
        tools
    }
}

// ---------------------------------------------------------------------------
// MCP servers
// ---------------------------------------------------------------------------

/// A configured MCP server.
#[derive(Debug, PartialEq)]
pub struct McpServerConfig<T> {
    pub name: String,
    /// How the server is launched and reached; carried along unread.
    pub settings: T,
}

/// An MCP server as an extension.
#[derive(Debug)]
pub struct McpExtension<T> {
    name: String,
    config: McpServerConfig<T>,
}

/// An MCP extension, instantiated. It contributes the tools that its server named,
/// from the moment it named them.
#[derive(Debug, PartialEq)]
pub struct McpInstance<X> {
    manifest: ExtensionManifest,
    tools: Vec<Arc<X>>,
}

/// A tool to be registered, and the extension that owns it.
#[derive(Debug, PartialEq)]
pub struct Registration<X> {
    pub tool: Arc<X>,
    pub owner: String,
}

/// How far the startup of a server is.
#[derive(Debug, PartialEq)]
pub enum McpStartup<X> {
    /// The server was told to start.
    Starting,
    /// It runs; the tools for its capabilities are to be built.
    Running,
    /// It was asked for its tools. Those for its capabilities are at hand.
    Discovering(Vec<Arc<X>>),
    /// Nothing is left to do.
    Settled,
}

/// What happened during a startup.
#[derive(Debug, PartialEq)]
pub enum McpEvent<R, X, E> {
    /// The server runs.
    Started(R),
    /// The server could not be started.
    StartFailed(E),
    /// The tools for the server's capabilities are built.
    Equipped(Vec<Arc<X>>),
    /// The server named its tools.
    Discovered(Vec<Arc<X>>),
    /// The server could not be asked for its tools.
    DiscoveryFailed(E),
}

/// What to do next during a startup.
#[derive(Debug, PartialEq)]
pub enum McpAction<R, X, E> {
    /// Enter the server as running, and build the tools for its capabilities.
    RecordRunning(String, R),
    /// Ask the server for its tools.
    Discover,
    /// Enter the server as failed.
    RecordFailed(String, E),
    /// Register tools, in this order.
    Register(Vec<Registration<X>>),
    /// Nothing.
    Nothing,
}

/// The name of the extension of an MCP server.
pub open spec fn mcp_name(server: Seq<char>) -> Seq<char> {
    "mcp-"@ + server
}

/// Registrations of exactly these tools, in order, for one owner.
pub open spec fn registered<X>(
    registrations: Seq<Registration<X>>,
    tools: Seq<Arc<X>>,
    owner: Seq<char>,
) -> bool {
    &&& registrations.len() == tools.len()
    &&& forall|i: int|
        #![trigger registrations[i]]
        0 <= i < tools.len() ==> registrations[i].tool == tools[i] && registrations[i].owner@
            == owner
}

/// How a startup goes on after an event: the server that came up is entered as
/// running, one that did not as failed; the tools it named are registered before
/// those for its capabilities, and the latter also where it named none.
pub open spec fn goes_on<R, X, E>(
    server: Seq<char>,
    state: McpStartup<X>,
    event: McpEvent<R, X, E>,
    next: McpStartup<X>,
    action: McpAction<R, X, E>,
) -> bool {
    match (state, event) {
        (McpStartup::Starting, McpEvent::Started(running)) => {
            &&& next is Running
            &&& action matches McpAction::RecordRunning(name, handle) && name@ == server && handle
                == running
        },
        (McpStartup::Starting, McpEvent::StartFailed(error)) => {
            &&& next is Settled
            &&& action matches McpAction::RecordFailed(name, reason) && name@ == server && reason
                == error
        },
        (McpStartup::Running, McpEvent::Equipped(capability_tools)) => {
            &&& next == McpStartup::Discovering(capability_tools)
            &&& action is Discover
        },
        (McpStartup::Discovering(capability_tools), McpEvent::Discovered(tools)) => {
            &&& next is Settled
            &&& action matches McpAction::Register(registrations) && registered(
                registrations@,
                tools@ + capability_tools@,
                mcp_name(server),
            )
        },
        (McpStartup::Discovering(capability_tools), McpEvent::DiscoveryFailed(_)) => {
            &&& next is Settled
            &&& action matches McpAction::Register(registrations) && registered(
                registrations@,
                capability_tools@,
                mcp_name(server),
            )
        },
        _ => {
            &&& next == state
            &&& action is Nothing
        },
    }
}

/// What an instance contributes after an event, given what it contributed before: to
/// that is added what its server names when it is asked for its tools.
pub open spec fn gained<R, X, E>(
    state: McpStartup<X>,
    event: McpEvent<R, X, E>,
    tools: Seq<Arc<X>>,
) -> Seq<Arc<X>> {
    match (state, event) {
        (McpStartup::Discovering(_), McpEvent::Discovered(named)) => tools + named@,
        _ => tools,
    }
}

/// `after` is `before` with registrations of these tools behind it.
spec fn extended<X>(
    before: Seq<Registration<X>>,
    after: Seq<Registration<X>>,
    tools: Seq<Arc<X>>,
    owner: Seq<char>,
) -> bool {
    &&& after.len() == before.len() + tools.len()
    &&& after.take(before.len() as int) == before
    &&& registered(after.skip(before.len() as int), tools, owner)
}

fn register_all<X>(tools: Vec<Arc<X>>, owner: &str, registrations: &mut Vec<Registration<X>>)
    ensures
        extended(old(registrations)@, final(registrations)@, tools@, owner@),
{
    let ghost before = registrations@;
    let ghost all = tools@;
    let count: usize = tools.len();
    let mut rest = tools;
    let mut i: usize = 0;
    assert(rest@ =~= all.skip(0));
    assert(registrations@.take(before.len() as int) =~= before);
    while rest.len() > 0
        invariant
            i <= all.len(),
            rest@ == all.skip(i as int),
            extended(before, registrations@, all.take(i as int), owner@),
            all.len() == count,
        decreases rest@.len(),
    {
        let ghost done = registrations@;
        let tool = rest.remove(0);
        registrations.push(Registration { tool, owner: owner.to_owned() });
        proof {
            let added = registrations@.skip(before.len() as int);
            assert(rest@ =~= all.skip(i + 1));
            assert(registrations@.take(before.len() as int) =~= done.take(before.len() as int));
            assert forall|j: int| 0 <= j < i + 1 implies (#[trigger] added[j]).tool == all.take(
                i + 1,
            )[j] && added[j].owner@ == owner@ by {
                if j < i {
                    assert(added[j] == done.skip(before.len() as int)[j]);
                    assert(all.take(i + 1)[j] == all.take(i as int)[j]);
                }
            }
        }
        i += 1;
    }
    assert(all.take(i as int) =~= all);
}

impl<T> McpExtension<T> {
    /// The configuration.
    pub closed spec fn server(self) -> McpServerConfig<T> {
        self.config
    }

    /// The extension's name.
    pub closed spec fn title(self) -> Seq<char> {
        self.name@
    }

    /// The extension of a configured server.
    pub fn new(config: McpServerConfig<T>) -> (extension: McpExtension<T>)
        ensures
            extension.server() == config,
            extension.title() == mcp_name(config.name@),
    {
        let name = text::join("mcp-", config.name.as_str());
        McpExtension { name, config }
    }

    /// The configuration.
    pub fn config(&self) -> (config: &McpServerConfig<T>)
        ensures
            *config == self.server(),
    {
        &self.config
    }

    /// The extension's name.
    pub fn name(&self) -> (name: &str)
        ensures
            name@ == self.title(),
    {
        self.name.as_str()
    }

    /// What the extension hooks into.
    pub fn supported_hooks(&self) -> (hooks: Vec<HookKind>)
        ensures
            hooks@ == seq![HookKind::Tool],
    {
        tool_hooks()
    }

    /// What the extension says of itself.
    pub fn manifest(&self) -> (manifest: ExtensionManifest)
        ensures
            tool_manifest(manifest, self.title()),
    {
        build_manifest(self.name.as_str())
    }

    /// An instance without tools, and a startup in which they come to it.
    pub fn instantiate<X>(&self) -> (instance: (McpInstance<X>, McpStartup<X>))
        ensures
            tool_manifest(instance.0.described(), self.title()),
            instance.0.contributed().len() == 0,
            instance.1 is Starting,
    {
        (McpInstance { manifest: self.manifest(), tools: Vec::new() }, McpStartup::Starting)
    }

    /// Carry the startup of an instance on after an event.
    pub fn advance<R, X, E>(
        &self,
        instance: &mut McpInstance<X>,
        state: McpStartup<X>,
        event: McpEvent<R, X, E>,
    ) -> (result: (McpStartup<X>, McpAction<R, X, E>))
        ensures
            goes_on(self.server().name@, state, event, result.0, result.1),
            final(instance).contributed() == gained(state, event, old(instance).contributed()),
            final(instance).described() == old(instance).described(),
    {
        match (state, event) {
            (McpStartup::Starting, McpEvent::Started(running)) => (
                McpStartup::Running,
                McpAction::RecordRunning(self.config.name.clone(), running),
            ),
            (McpStartup::Running, McpEvent::Equipped(capability_tools)) => (
                McpStartup::Discovering(capability_tools),
                McpAction::Discover,
            ),
            (McpStartup::Starting, McpEvent::StartFailed(error)) => (
                McpStartup::Settled,
                McpAction::RecordFailed(self.config.name.clone(), error),
            ),
            (McpStartup::Discovering(capability_tools), McpEvent::Discovered(tools)) => {
                let owner = text::join("mcp-", self.config.name.as_str());
                let mut registrations: Vec<Registration<X>> = Vec::new();
                let ghost named = tools@;
                let ghost extra = capability_tools@;
                instance.contribute(&tools);
                register_all(tools, owner.as_str(), &mut registrations);
                let ghost first = registrations@;
                register_all(capability_tools, owner.as_str(), &mut registrations);
                proof {
                    assert(first.skip(0) =~= first);
                    assert forall|i: int|
                        0 <= i < registrations@.len() implies (#[trigger] registrations@[i]).tool
                        == (named + extra)[i] && registrations@[i].owner@ == owner@ by {
                        if i < first.len() {
                            assert(registrations@[i] == registrations@.take(
                                first.len() as int,
                            )[i]);
                            assert(first.skip(0)[i] == first[i]);
                        } else {
                            assert(registrations@[i] == registrations@.skip(
                                first.len() as int,
                            )[i - first.len()]);
                        }
                    }
                }
                (McpStartup::Settled, McpAction::Register(registrations))
            },
            (McpStartup::Discovering(capability_tools), McpEvent::DiscoveryFailed(_)) => {
                let owner = text::join("mcp-", self.config.name.as_str());
                let mut registrations: Vec<Registration<X>> = Vec::new();
                register_all(capability_tools, owner.as_str(), &mut registrations);
                assert(registrations@.skip(0) =~= registrations@);
                (McpStartup::Settled, McpAction::Register(registrations))
            },
            (state, _) => (state, McpAction::Nothing),
        }
    }
}

impl<X> McpInstance<X> {
    /// The manifest it was made with.
    pub closed spec fn described(self) -> ExtensionManifest {
        self.manifest
    }

    /// The tools it contributes.
    pub closed spec fn contributed(self) -> Seq<Arc<X>> {
        self.tools@
    }

    /// What the extension says of itself.
    pub fn manifest(&self) -> (manifest: &ExtensionManifest)
        ensures
            *manifest == self.described(),
    {
        &self.manifest
    }

    /// The tools that the instance contributes.
    pub fn tools(&self) -> (tools: Vec<Arc<X>>)
        ensures
            tools@ == self.contributed(),
    {
        let mut tools: Vec<Arc<X>> = Vec::new();
        share_all(&self.tools, &mut tools);
        assert(Seq::<Arc<X>>::empty() + self.tools@ =~= self.tools@);
        tools
    }

    /// Contribute more tools.
    fn contribute(&mut self, tools: &Vec<Arc<X>>)
        ensures
            final(self).contributed() == old(self).contributed() + tools@,
            final(self).described() == old(self).described(),
    {
        share_all(tools, &mut self.tools);
    }
}

fn share_all<X>(tools: &Vec<Arc<X>>, shared: &mut Vec<Arc<X>>)
    ensures
        final(shared)@ == old(shared)@ + tools@,
{
    let ghost before = shared@;
    let mut i: usize = 0;
    assert(before + tools@.take(0) =~= before);
    while i < tools.len()
        invariant
            i <= tools@.len(),
            shared@ == before + tools@.take(i as int),
        decreases tools@.len() - i,
    {
        shared.push(Arc::clone(&tools[i]));
        assert(before + tools@.take(i + 1) =~= (before + tools@.take(i as int)).push(
            tools@[i as int],
        ));
        i += 1;
    }
    assert(tools@.take(i as int) =~= tools@);
}

/// The startup of a server, carried through a list of events: the state behind
/// the first `n` of them, and the actions on the way.
pub open spec fn carried<R, X, E>(
    server: Seq<char>,
    events: Seq<McpEvent<R, X, E>>,
    states: Seq<McpStartup<X>>,
    actions: Seq<McpAction<R, X, E>>,
) -> bool {
    &&& states.len() == events.len() + 1
    &&& actions.len() == events.len()
    &&& states[0] is Starting
    &&& forall|i: int|
        #![trigger events[i]]
        0 <= i < events.len() ==> goes_on(server, states[i], events[i], states[i + 1], actions[i])
}

/// What an instance contributes behind the first `n` events of its startup.
pub open spec fn supplied<R, X, E>(
    events: Seq<McpEvent<R, X, E>>,
    states: Seq<McpStartup<X>>,
    n: nat,
) -> Seq<Arc<X>>
    decreases n,
{
    if n == 0 {
        Seq::empty()
    } else {
        gained(states[n - 1], events[n - 1], supplied(events, states, (n - 1) as nat))
    }
}

/// An instance contributes nothing before its server has named its tools, and from
/// then on exactly the tools that it named.
pub proof fn lemma_discovered_tools_are_contributed<R, X, E>(
    server: Seq<char>,
    events: Seq<McpEvent<R, X, E>>,
    states: Seq<McpStartup<X>>,
    actions: Seq<McpAction<R, X, E>>,
    i: int,
    n: nat,
)
    requires
        carried(server, events, states, actions),
        0 <= i < events.len(),
        states[i] is Discovering,
        events[i] is Discovered,
        n <= events.len(),
    ensures
        n <= i ==> supplied(events, states, n).len() == 0,
        n > i ==> supplied(events, states, n) == events[i]->Discovered_0@,
    decreases n,
{
    if n > 0 {
        lemma_discovered_tools_are_contributed(
            server,
            events,
            states,
            actions,
            i,
            (n - 1) as nat,
        );
        assert(goes_on(server, states[i], events[i], states[i + 1], actions[i]));
        if n - 1 < i {
            lemma_discovery_is_the_last_step(server, events, states, actions, n - 1, i);
        } else if n - 1 == i {
            assert(supplied(events, states, n) =~= events[i]->Discovered_0@);
        } else {
            lemma_settled_stays(server, events, states, actions, i + 1, n - 1);
        }
    }
}

proof fn lemma_settled_stays<R, X, E>(
    server: Seq<char>,
    events: Seq<McpEvent<R, X, E>>,
    states: Seq<McpStartup<X>>,
    actions: Seq<McpAction<R, X, E>>,
    i: int,
    j: int,
)
    requires
        carried(server, events, states, actions),
        0 <= i <= j <= events.len(),
        states[i] is Settled,
    ensures
        states[j] is Settled,
    decreases j,
{
    if j > i {
        lemma_settled_stays(server, events, states, actions, i, j - 1);
        assert(goes_on(server, states[j - 1], events[j - 1], states[j], actions[j - 1]));
    }
}

proof fn lemma_discovery_is_the_last_step<R, X, E>(
    server: Seq<char>,
    events: Seq<McpEvent<R, X, E>>,
    states: Seq<McpStartup<X>>,
    actions: Seq<McpAction<R, X, E>>,
    i: int,
    j: int,
)
    requires
        carried(server, events, states, actions),
        0 <= i < j < events.len(),
        states[j] is Discovering,
    ensures
        !(states[i] is Discovering && events[i] is Discovered),
{
    assert(goes_on(server, states[i], events[i], states[i + 1], actions[i]));
    if states[i] is Discovering && events[i] is Discovered {
        lemma_settled_stays(server, events, states, actions, i + 1, j);
    }
}

/// A server that could not be started contributes no tools, whatever is heard
/// of it later.
pub proof fn lemma_failed_servers_contribute_nothing<R, X, E>(
    server: Seq<char>,
    events: Seq<McpEvent<R, X, E>>,
    states: Seq<McpStartup<X>>,
    actions: Seq<McpAction<R, X, E>>,
    n: int,
)
    requires
        carried(server, events, states, actions),
        events.len() > 0,
        events[0] is StartFailed,
        0 <= n < events.len(),
    ensures
        actions[n] is RecordFailed <==> n == 0,
        n > 0 ==> actions[n] is Nothing,
        states[n + 1] is Settled,
        supplied(events, states, (n + 1) as nat).len() == 0,
    decreases n,
{
    reveal_with_fuel(supplied, 2);
    assert(goes_on(server, states[n], events[n], states[n + 1], actions[n]));
    if n > 0 {
        lemma_failed_servers_contribute_nothing(server, events, states, actions, n - 1);
    }
}

/// Tools are registered once at most.
pub proof fn lemma_tools_are_registered_once<R, X, E>(
    server: Seq<char>,
    events: Seq<McpEvent<R, X, E>>,
    states: Seq<McpStartup<X>>,
    actions: Seq<McpAction<R, X, E>>,
    i: int,
    j: int,
)
    requires
        carried(server, events, states, actions),
        0 <= i < j < events.len(),
        actions[i] is Register,
    ensures
        states[j] is Settled,
        actions[j] is Nothing,
    decreases j,
{
    assert(goes_on(server, states[i], events[i], states[i + 1], actions[i]));
    assert(goes_on(server, states[j], events[j], states[j + 1], actions[j]));
    if j > i + 1 {
        lemma_tools_are_registered_once(server, events, states, actions, i, j - 1);
        assert(goes_on(server, states[j - 1], events[j - 1], states[j], actions[j - 1]));
    }
}

} // verus!
