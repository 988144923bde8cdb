use chaz::extension::{
    ExtensionRef, HookKind, McpAction, McpEvent, McpExtension, McpServerConfig, McpStartup,
    McpInstance, OrchestratorExtension, Registration,
};
use std::sync::Arc;

fn files() -> McpExtension<u8> {
    McpExtension::new(McpServerConfig { name: "files".to_string(), settings: 7 })
}

fn tool(name: &str) -> Arc<String> {
    Arc::new(name.to_string())
}

fn registered(name: &str) -> Registration<String> {
    Registration { tool: tool(name), owner: "mcp-files".to_string() }
}

fn carried(
    instance: &mut McpInstance<String>,
    state: McpStartup<String>,
    event: McpEvent<i32, String, String>,
) -> (McpStartup<String>, McpAction<i32, String, String>) {
    files().advance(instance, state, event)
}

#[test]
fn the_orchestrator_contributes_the_workflow_tool() {
    let extension = OrchestratorExtension::new("cell".to_string(), 3u32, 'x');
    assert_eq!(extension.name(), "orchestrator");
    assert_eq!(extension.supported_hooks(), vec![HookKind::Tool]);
    let instance = extension.instantiate();
    assert_eq!(instance.manifest(), &extension.manifest());
    assert_eq!(instance.manifest().name, "orchestrator");
    assert_eq!(instance.spawn().server, "cell");
    assert_eq!(instance.spawn().backend, 3);
    assert_eq!(instance.spawn().security, 'x');
    assert_eq!(instance.tools().len(), 1);
    assert_eq!(instance.tools()[0].descriptor().name, "workflow");
    assert_eq!(instance.tools()[0].delegate.as_ref(), instance.spawn());
    assert_eq!(instance.tools()[0].delegate.server, "cell");
}

#[test]
fn an_mcp_extension_is_named_after_its_server() {
    let extension = files();
    assert_eq!(extension.name(), "mcp-files");
    assert_eq!(extension.config().settings, 7);
    assert_eq!(extension.supported_hooks(), vec![HookKind::Tool]);
    let manifest = extension.manifest();
    assert_eq!(manifest.name, "mcp-files");
    assert_eq!(manifest.extension_ref, ExtensionRef::Builtin("mcp-files".to_string()));
    assert!(manifest.required_capabilities.is_empty());
    assert!(manifest.requested_capabilities.is_empty());
    assert!(manifest.provides_capabilities.is_empty());
}

#[test]
fn an_mcp_instance_starts_without_tools() {
    let (instance, startup) = files().instantiate::<String>();
    assert_eq!(instance.manifest().name, "mcp-files");
    assert!(instance.tools().is_empty());
    assert_eq!(startup, McpStartup::Starting);
}

#[test]
fn a_server_that_comes_up_adds_its_tools() {
    let (mut instance, state) = files().instantiate::<String>();
    let (state, action) = carried(&mut instance, state, McpEvent::Started(9));
    assert_eq!(action, McpAction::RecordRunning("files".to_string(), 9));
    let (state, action) =
        carried(&mut instance, state, McpEvent::Equipped(vec![tool("cap")]));
    assert_eq!(state, McpStartup::Discovering(vec![tool("cap")]));
    assert_eq!(action, McpAction::Discover);
    assert!(instance.tools().is_empty());
    let (state, action) = carried(
        &mut instance,
        state,
        McpEvent::Discovered(vec![tool("read"), tool("write")]),
    );
    assert_eq!(
        action,
        McpAction::Register(vec![registered("read"), registered("write"), registered("cap")])
    );
    assert_eq!(instance.tools(), vec![tool("read"), tool("write")]);
    let (state, action) =
        carried(&mut instance, state, McpEvent::Discovered(vec![tool("read")]));
    assert_eq!(state, McpStartup::Settled);
    assert_eq!(action, McpAction::Nothing);
    assert_eq!(instance.tools(), vec![tool("read"), tool("write")]);
    assert_eq!(instance.manifest().name, "mcp-files");
}

#[test]
fn a_registered_tool_is_the_contributed_one() {
    let (mut instance, _) = files().instantiate::<String>();
    let read = tool("read");
    let (_, action) = carried(
        &mut instance,
        McpStartup::Discovering(vec![]),
        McpEvent::Discovered(vec![Arc::clone(&read)]),
    );
    let McpAction::Register(registrations) = action else {
        panic!("expected registrations")
    };
    assert!(Arc::ptr_eq(&registrations[0].tool, &read));
    assert!(Arc::ptr_eq(&instance.tools()[0], &read));
}

#[test]
fn a_server_that_names_no_tools_still_adds_its_capabilities() {
    let (mut instance, _) = files().instantiate::<String>();
    let (state, action) = carried(
        &mut instance,
        McpStartup::Discovering(vec![tool("cap")]),
        McpEvent::DiscoveryFailed("timeout".to_string()),
    );
    assert_eq!(state, McpStartup::Settled);
    assert_eq!(action, McpAction::Register(vec![registered("cap")]));
    assert!(instance.tools().is_empty());
}

#[test]
fn a_server_that_fails_adds_nothing() {
    let (mut instance, state) = files().instantiate::<String>();
    let (state, action) = carried(
        &mut instance,
        state,
        McpEvent::StartFailed("no such program".to_string()),
    );
    assert_eq!(
        action,
        McpAction::RecordFailed("files".to_string(), "no such program".to_string())
    );
    let (state, action) =
        carried(&mut instance, state, McpEvent::Discovered(vec![tool("read")]));
    assert_eq!(state, McpStartup::Settled);
    assert_eq!(action, McpAction::Nothing);
    assert!(instance.tools().is_empty());
}
