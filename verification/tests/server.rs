use ctags_ls::document::{ContentChange, DocumentError, Position, Range};
use ctags_ls::server::{LspServer, Notification, Route};
use ctags_ls::workspace::WorkspaceFolder;

fn opened(uri: &str, text: &str) -> Notification {
    Notification::DidOpen { uri: uri.to_string(), text: text.to_string() }
}

fn edit(from: usize, to: usize, text: &str) -> ContentChange {
    ContentChange {
        range: Some(Range {
            start: Position { line: 0, character: from },
            end: Position { line: 0, character: to },
        }),
        text: text.to_string(),
    }
}

fn changed(uri: &str, changes: Vec<ContentChange>) -> Notification {
    Notification::DidChange { uri: uri.to_string(), changes }
}

fn text_of(server: &LspServer, uri: &str) -> Option<String> {
    server.documents.get(uri).map(|d| d.text())
}

#[test]
fn new_server_is_empty_and_running() {
    let server = LspServer::new();
    assert!(server.is_running());
    assert!(!server.shutdown_requested);
    assert!(server.documents.get("file:///a.c").is_none());
    assert!(server.workspace_manager.workspaces.is_empty());
    assert_eq!(server.workspace_manager.config.tag_file_patterns, vec!["tags"]);
}

#[test]
fn requests_are_routed_by_method() {
    assert_eq!(LspServer::route_request("initialize"), Route::Initialize);
    assert_eq!(LspServer::route_request("textDocument/definition"), Route::Definition);
    assert_eq!(LspServer::route_request("textDocument/declaration"), Route::Declaration);
    assert_eq!(LspServer::route_request("textDocument/implementation"), Route::Implementation);
    assert_eq!(LspServer::route_request("shutdown"), Route::Shutdown);
}

#[test]
fn other_requests_are_unhandled() {
    assert_eq!(LspServer::route_request("textDocument/hover"), Route::Unhandled);
    assert_eq!(LspServer::route_request("textDocument/didOpen"), Route::Unhandled);
    assert_eq!(LspServer::route_request("Initialize"), Route::Unhandled);
    assert_eq!(LspServer::route_request(""), Route::Unhandled);
}

#[test]
fn notifications_are_routed_by_method() {
    assert_eq!(LspServer::route_notification("textDocument/didOpen"), Route::DidOpen);
    assert_eq!(LspServer::route_notification("textDocument/didChange"), Route::DidChange);
    assert_eq!(LspServer::route_notification("textDocument/didClose"), Route::DidClose);
    assert_eq!(
        LspServer::route_notification("workspace/didChangeWorkspaceFolders"),
        Route::DidChangeWorkspaceFolders
    );
}

#[test]
fn other_notifications_are_unhandled() {
    assert_eq!(LspServer::route_notification("initialized"), Route::Unhandled);
    assert_eq!(LspServer::route_notification("shutdown"), Route::Unhandled);
    assert_eq!(LspServer::route_notification("textDocument/didSave"), Route::Unhandled);
}

#[test]
fn shutdown_request_stops_the_server() {
    let mut server = LspServer::new();
    server.handle_notification(opened("file:///a.c", "x")).unwrap();
    server.request_shutdown();
    assert!(!server.is_running());
    assert!(server.shutdown_requested);
    assert_eq!(text_of(&server, "file:///a.c"), Some("x".to_string()));
}

#[test]
fn open_stores_the_text() {
    let mut server = LspServer::new();
    server.handle_notification(opened("file:///a.c", "int a;")).unwrap();
    server.handle_notification(opened("file:///b.c", "int b;")).unwrap();
    assert_eq!(text_of(&server, "file:///a.c"), Some("int a;".to_string()));
    assert_eq!(text_of(&server, "file:///b.c"), Some("int b;".to_string()));
    server.handle_notification(opened("file:///a.c", "again")).unwrap();
    assert_eq!(text_of(&server, "file:///a.c"), Some("again".to_string()));
}

#[test]
fn change_edits_the_open_document() {
    let mut server = LspServer::new();
    server.handle_notification(opened("file:///a.c", "int a;")).unwrap();
    server
        .handle_notification(changed("file:///a.c", vec![edit(4, 5, "value"), edit(0, 3, "long")]))
        .unwrap();
    assert_eq!(text_of(&server, "file:///a.c"), Some("long value;".to_string()));
}

#[test]
fn change_of_unknown_document_is_passed_over() {
    let mut server = LspServer::new();
    server.handle_notification(opened("file:///a.c", "int a;")).unwrap();
    assert_eq!(server.handle_notification(changed("file:///b.c", vec![edit(0, 99, "x")])), Ok(()));
    assert_eq!(text_of(&server, "file:///a.c"), Some("int a;".to_string()));
    assert_eq!(text_of(&server, "file:///b.c"), None);
}

#[test]
fn change_that_cannot_be_made_is_refused_as_a_whole() {
    let mut server = LspServer::new();
    server.handle_notification(opened("file:///a.c", "int a;")).unwrap();
    let result =
        server.handle_notification(changed("file:///a.c", vec![edit(0, 3, "x"), edit(2, 9, "y")]));
    assert_eq!(result, Err(DocumentError::InvalidData));
    assert_eq!(text_of(&server, "file:///a.c"), Some("int a;".to_string()));
}

#[test]
fn close_forgets_the_document() {
    let mut server = LspServer::new();
    server.handle_notification(opened("file:///a.c", "int a;")).unwrap();
    server.handle_notification(opened("file:///b.c", "int b;")).unwrap();
    server.handle_notification(Notification::DidClose { uri: "file:///a.c".to_string() }).unwrap();
    assert_eq!(text_of(&server, "file:///a.c"), None);
    assert_eq!(text_of(&server, "file:///b.c"), Some("int b;".to_string()));
    server.handle_notification(Notification::DidClose { uri: "file:///a.c".to_string() }).unwrap();
    assert_eq!(text_of(&server, "file:///a.c"), None);
}

#[test]
fn workspace_folders_are_removed_then_added() {
    let mut server = LspServer::new();
    let usr = || WorkspaceFolder { uri: "file:///usr".to_string(), name: "usr".to_string() };
    let etc = || WorkspaceFolder { uri: "file:///etc".to_string(), name: "etc".to_string() };
    server
        .handle_notification(Notification::DidChangeWorkspaceFolders {
            removed: Vec::new(),
            added: vec![usr(), etc()],
        })
        .unwrap();
    assert_eq!(server.workspace_manager.workspaces.len(), 2);
    server
        .handle_notification(Notification::DidChangeWorkspaceFolders {
            removed: vec![usr()],
            added: vec![usr()],
        })
        .unwrap();
    assert_eq!(server.workspace_manager.workspaces.len(), 2);
    assert_eq!(server.workspace_manager.workspaces[0].folder.name, "etc");
    assert_eq!(server.workspace_manager.workspaces[1].folder.name, "usr");
}

#[test]
fn other_notifications_change_nothing() {
    let mut server = LspServer::new();
    server.handle_notification(opened("file:///a.c", "int a;")).unwrap();
    assert_eq!(server.handle_notification(Notification::Other), Ok(()));
    assert_eq!(text_of(&server, "file:///a.c"), Some("int a;".to_string()));
    assert!(server.workspace_manager.workspaces.is_empty());
    assert!(server.is_running());
}
