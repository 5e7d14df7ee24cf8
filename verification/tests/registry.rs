use tome::errors::McpError;
use tome::registry::{Registry, RenameOutcome};
use tome::session::{Route, ServerEntry, Session};

fn names(v: &[&str]) -> Vec<String> {
    v.iter().map(|s| s.to_string()).collect()
}

#[test]
fn start_registers_server_and_routes() {
    let mut reg: Registry<u64> = Registry::new();
    let r = reg.start(1, "search".to_string(), &names(&["web_search"]), 100);
    assert!(r.is_ok());
    assert!(reg.has_server(1, &"search".to_string()));
    let handles = reg.get_tools(1);
    assert_eq!(handles.len(), 1);
    assert_eq!(*handles[0], 100);
    let h = reg.call_tool(1, &"web_search".to_string()).unwrap();
    assert_eq!(*h, 100);
}

#[test]
fn duplicate_name_rejected_and_registry_unchanged() {
    let mut reg: Registry<u64> = Registry::new();
    reg.start(1, "search".to_string(), &names(&["web_search"]), 100).unwrap();
    // The colliding start hands the new handle back to be killed and names
    // the error.
    let r = reg.start(1, "search".to_string(), &names(&["other_tool"]), 200);
    match r {
        Err((rejected, McpError::DuplicateServerName(name))) => {
            assert_eq!(rejected, 200);
            assert_eq!(name, "search".to_string());
        }
        _ => panic!("expected DuplicateServerName with the rejected handle"),
    }
    // The existing server and its routes are untouched.
    let h = reg.call_tool(1, &"web_search".to_string()).unwrap();
    assert_eq!(*h, 100);
    assert!(matches!(
        reg.call_tool(1, &"other_tool".to_string()),
        Err(McpError::ToolNotFound(_))
    ));
    let handles = reg.get_tools(1);
    assert_eq!(handles.len(), 1);
    assert_eq!(*handles[0], 100);
}

#[test]
fn same_name_in_other_session_is_fine() {
    let mut reg: Registry<u64> = Registry::new();
    reg.start(1, "search".to_string(), &names(&["web_search"]), 100).unwrap();
    let r = reg.start(2, "search".to_string(), &names(&["web_search"]), 200);
    assert!(r.is_ok());
    assert_eq!(*reg.call_tool(1, &"web_search".to_string()).unwrap(), 100);
    assert_eq!(*reg.call_tool(2, &"web_search".to_string()).unwrap(), 200);
}

#[test]
fn tool_collision_last_write_wins() {
    let mut reg: Registry<u64> = Registry::new();
    reg.start(1, "alpha".to_string(), &names(&["shared", "only_alpha"]), 100).unwrap();
    reg.start(1, "beta".to_string(), &names(&["shared"]), 200).unwrap();
    // The newer server silently takes over the colliding route.
    assert_eq!(*reg.call_tool(1, &"shared".to_string()).unwrap(), 200);
    assert_eq!(*reg.call_tool(1, &"only_alpha".to_string()).unwrap(), 100);
}

#[test]
fn stop_returns_handle_and_drops_its_routes() {
    let mut reg: Registry<u64> = Registry::new();
    reg.start(1, "alpha".to_string(), &names(&["a_tool"]), 100).unwrap();
    let killed = reg.stop(1, &"alpha".to_string());
    assert_eq!(killed, Some(100));
    assert!(!reg.has_server(1, &"alpha".to_string()));
    assert!(matches!(
        reg.call_tool(1, &"a_tool".to_string()),
        Err(McpError::ToolNotFound(_))
    ));
}

#[test]
fn stop_missing_is_noop_success() {
    let mut reg: Registry<u64> = Registry::new();
    // Missing session: nothing to do.
    assert_eq!(reg.stop(9, &"ghost".to_string()), None);
    reg.start(1, "alpha".to_string(), &names(&["a_tool"]), 100).unwrap();
    // Missing name in a live session: nothing to do, session untouched.
    assert_eq!(reg.stop(1, &"ghost".to_string()), None);
    assert_eq!(*reg.call_tool(1, &"a_tool".to_string()).unwrap(), 100);
    // Stopping twice: the second is a no-op.
    assert_eq!(reg.stop(1, &"alpha".to_string()), Some(100));
    assert_eq!(reg.stop(1, &"alpha".to_string()), None);
}

#[test]
fn stop_session_returns_all_handles() {
    let mut reg: Registry<u64> = Registry::new();
    reg.start(1, "alpha".to_string(), &names(&["a_tool"]), 100).unwrap();
    reg.start(1, "beta".to_string(), &names(&["b_tool"]), 200).unwrap();
    let mut killed = reg.stop_session(1);
    killed.sort();
    assert_eq!(killed, vec![100, 200]);
}

#[test]
fn stop_session_then_get_tools_is_empty() {
    let mut reg: Registry<u64> = Registry::new();
    reg.start(7, "alpha".to_string(), &names(&["a_tool"]), 100).unwrap();
    reg.stop_session(7);
    assert_eq!(reg.get_tools(7).len(), 0);
    // Whether or not the session ever existed.
    reg.stop_session(12345);
    assert_eq!(reg.get_tools(12345).len(), 0);
}

#[test]
fn rename_rewrites_routes_to_same_handle() {
    let mut reg: Registry<u64> = Registry::new();
    reg.start(1, "alpha".to_string(), &names(&["a_tool"]), 100).unwrap();
    let r = reg.rename_server(1, &"alpha".to_string(), &"beta".to_string());
    assert!(matches!(r, RenameOutcome::Renamed(None)));
    // The tool previously owned by "alpha" is served by the process now
    // named "beta": the same handle.
    assert!(!reg.has_server(1, &"alpha".to_string()));
    assert!(reg.has_server(1, &"beta".to_string()));
    assert_eq!(*reg.call_tool(1, &"a_tool".to_string()).unwrap(), 100);
}

#[test]
fn rename_missing_is_silent_noop() {
    let mut reg: Registry<u64> = Registry::new();
    assert!(matches!(
        reg.rename_server(1, &"ghost".to_string(), &"beta".to_string()),
        RenameOutcome::NotFound
    ));
    reg.start(1, "alpha".to_string(), &names(&["a_tool"]), 100).unwrap();
    assert!(matches!(
        reg.rename_server(1, &"ghost".to_string(), &"beta".to_string()),
        RenameOutcome::NotFound
    ));
    assert_eq!(*reg.call_tool(1, &"a_tool".to_string()).unwrap(), 100);
}

#[test]
fn rename_displaces_holder_of_new_name() {
    let mut reg: Registry<u64> = Registry::new();
    reg.start(1, "alpha".to_string(), &names(&["a_tool"]), 100).unwrap();
    reg.start(1, "beta".to_string(), &names(&["b_tool"]), 200).unwrap();
    let r = reg.rename_server(1, &"alpha".to_string(), &"beta".to_string());
    // The server that already bore "beta" is displaced and handed back.
    assert!(matches!(r, RenameOutcome::Renamed(Some(200))));
    assert_eq!(*reg.call_tool(1, &"a_tool".to_string()).unwrap(), 100);
    // "b_tool" now routes to "beta", which is the renamed server.
    assert_eq!(*reg.call_tool(1, &"b_tool".to_string()).unwrap(), 100);
}

#[test]
fn rename_to_same_name_keeps_everything() {
    let mut reg: Registry<u64> = Registry::new();
    reg.start(1, "alpha".to_string(), &names(&["a_tool"]), 100).unwrap();
    let r = reg.rename_server(1, &"alpha".to_string(), &"alpha".to_string());
    assert!(matches!(r, RenameOutcome::Renamed(None)));
    assert!(reg.has_server(1, &"alpha".to_string()));
    assert_eq!(*reg.call_tool(1, &"a_tool".to_string()).unwrap(), 100);
}

#[test]
fn duplicate_tool_in_one_advertisement_routes_once() {
    let mut reg: Registry<u64> = Registry::new();
    reg.start(1, "alpha".to_string(), &names(&["t", "t"]), 100).unwrap();
    assert_eq!(*reg.call_tool(1, &"t".to_string()).unwrap(), 100);
    let handles = reg.get_tools(1);
    assert_eq!(handles.len(), 1);
}

#[test]
fn stopping_one_session_leaves_others_alone() {
    let mut reg: Registry<u64> = Registry::new();
    reg.start(1, "alpha".to_string(), &names(&["a_tool"]), 100).unwrap();
    reg.start(2, "alpha".to_string(), &names(&["a_tool"]), 200).unwrap();
    reg.stop_session(1);
    assert_eq!(reg.get_tools(1).len(), 0);
    assert_eq!(*reg.call_tool(2, &"a_tool".to_string()).unwrap(), 200);
}

#[test]
fn call_tool_misses_are_distinguished() {
    let mut reg: Registry<u64> = Registry::new();
    // Unknown session: the tool is routed nowhere.
    assert!(matches!(
        reg.call_tool(42, &"a_tool".to_string()),
        Err(McpError::ToolNotFound(_))
    ));
    reg.start(1, "alpha".to_string(), &names(&["a_tool"]), 100).unwrap();
    assert!(matches!(
        reg.call_tool(1, &"ghost_tool".to_string()),
        Err(McpError::ToolNotFound(_))
    ));
}

#[test]
fn dangling_route_reports_server_not_found() {
    // The registry's own operations keep every route pointing at a live
    // server; a hand-built session with a dangling route shows the second
    // lookup miss being told apart from the first.
    let session: Session<u64> = Session {
        servers: vec![ServerEntry { name: "alpha".to_string(), handle: 100 }],
        routes: vec![Route { tool: "a_tool".to_string(), server: "gone".to_string() }],
    };
    let r = session.resolve(&"a_tool".to_string());
    match r {
        Err(McpError::ServerNotFound(server, tool)) => {
            assert_eq!(server, "gone".to_string());
            assert_eq!(tool, "a_tool".to_string());
        }
        _ => panic!("expected ServerNotFound"),
    }
}

#[test]
fn end_to_end_session_lifecycle() {
    // Session 7 starts server "search"; its tool is routed to it; the server
    // is renamed "web"; the tool call is still served by the process started
    // as "search"; stopping the session leaves nothing behind.
    let original_handle: u64 = 4242;
    let mut reg: Registry<u64> = Registry::new();
    reg.start(7, "search".to_string(), &names(&["web_search"]), original_handle).unwrap();

    let handles = reg.get_tools(7);
    assert_eq!(handles.len(), 1);
    assert_eq!(*handles[0], original_handle);
    assert_eq!(*reg.call_tool(7, &"web_search".to_string()).unwrap(), original_handle);

    let r = reg.rename_server(7, &"search".to_string(), &"web".to_string());
    assert!(matches!(r, RenameOutcome::Renamed(None)));

    let served = reg.call_tool(7, &"web_search".to_string()).unwrap();
    assert_eq!(*served, original_handle);

    let killed = reg.stop_session(7);
    assert_eq!(killed, vec![original_handle]);
    assert_eq!(reg.get_tools(7).len(), 0);
}
