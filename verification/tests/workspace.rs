use ctags_ls::initialize_handler::InitializeHandler;
use ctags_ls::server::LspServer;
use ctags_ls::workspace::{select_tag_file_path, WorkspaceFolder, WorkspaceManager};

fn folder(uri: &str, name: &str) -> WorkspaceFolder {
    WorkspaceFolder { uri: uri.to_string(), name: name.to_string() }
}

fn names(list: &[&str]) -> Vec<String> {
    list.iter().map(|s| s.to_string()).collect()
}

#[test]
fn new_manager_has_no_roots() {
    let manager = WorkspaceManager::new(names(&["tags", ".tags"]));
    assert!(manager.workspaces.is_empty());
    assert_eq!(manager.config.tag_file_patterns, vec!["tags", ".tags"]);
}

#[test]
fn candidates_join_path_and_pattern_with_a_slash() {
    let manager = WorkspaceManager::new(names(&["tags", ".tags", "sub/TAGS"]));
    assert_eq!(
        manager.candidates("/home/me/project"),
        vec!["/home/me/project/tags", "/home/me/project/.tags", "/home/me/project/sub/TAGS"]
    );
    assert_eq!(manager.candidates("/"), vec!["//tags", "//.tags", "//sub/TAGS"]);
    assert!(WorkspaceManager::new(Vec::new()).candidates("/x").is_empty());
}

#[test]
fn first_present_candidate_wins() {
    let candidates = names(&["/p/a", "/p/b", "/p/c"]);
    assert_eq!(select_tag_file_path(&candidates, &vec![false, true, true]), Some("/p/b".to_string()));
    assert_eq!(select_tag_file_path(&candidates, &vec![true, true, true]), Some("/p/a".to_string()));
    assert_eq!(select_tag_file_path(&candidates, &vec![false, false, true]), Some("/p/c".to_string()));
}

#[test]
fn no_present_candidate_gives_no_index() {
    let candidates = names(&["/p/a", "/p/b"]);
    assert_eq!(select_tag_file_path(&candidates, &vec![false, false]), None);
    assert_eq!(select_tag_file_path(&candidates, &Vec::new()), None);
    assert_eq!(select_tag_file_path(&Vec::new(), &vec![true]), None);
    assert_eq!(select_tag_file_path(&candidates, &vec![false, false, true]), None);
}

#[test]
fn register_adds_a_root() {
    let mut manager = WorkspaceManager::new(names(&["tags"]));
    manager.register(&folder("file:///p", "p"), "/p".to_string(), Some("/p/tags".to_string()));
    manager.register(&folder("file:///q", "q"), "/q".to_string(), None);
    assert_eq!(manager.workspaces.len(), 2);
    assert_eq!(manager.workspaces[0].folder.uri, "file:///p");
    assert_eq!(manager.workspaces[0].folder.name, "p");
    assert_eq!(manager.workspaces[0].path, "/p");
    assert_eq!(manager.workspaces[0].tag_file_path, Some("/p/tags".to_string()));
    assert_eq!(manager.workspaces[1].folder.uri, "file:///q");
    assert_eq!(manager.workspaces[1].tag_file_path, None);
}

#[test]
fn register_of_known_address_changes_nothing() {
    let mut manager = WorkspaceManager::new(names(&["tags"]));
    manager.register(&folder("file:///p", "p"), "/p".to_string(), None);
    manager.register(&folder("file:///p", "other"), "/else".to_string(), Some("/x".to_string()));
    assert_eq!(manager.workspaces.len(), 1);
    assert_eq!(manager.workspaces[0].folder.name, "p");
    assert_eq!(manager.workspaces[0].path, "/p");
    assert_eq!(manager.workspaces[0].tag_file_path, None);
}

#[test]
fn knows_compares_addresses() {
    let mut manager = WorkspaceManager::new(names(&["tags"]));
    manager.register(&folder("file:///p", "p"), "/p".to_string(), None);
    assert!(manager.knows("file:///p"));
    assert!(!manager.knows("file:///p/"));
    assert!(!manager.knows("file:///P"));
}

#[test]
fn add_workspace_finds_the_first_existing_tag_file() {
    let mut manager = WorkspaceManager::new(names(&["surely-not-there-7f3a", "bin", "lib"]));
    manager.add_workspace(&folder("file:///usr", "usr"));
    assert_eq!(manager.workspaces.len(), 1);
    assert_eq!(manager.workspaces[0].folder.uri, "file:///usr");
    assert_eq!(manager.workspaces[0].folder.name, "usr");
    assert_eq!(manager.workspaces[0].path, "/usr");
    assert_eq!(manager.workspaces[0].tag_file_path, Some("/usr/bin".to_string()));
}

#[test]
fn add_workspace_without_tag_file_still_adds_the_root() {
    let mut manager = WorkspaceManager::new(names(&["surely-not-there-7f3a"]));
    manager.add_workspace(&folder("file:///usr", "usr"));
    assert_eq!(manager.workspaces.len(), 1);
    assert_eq!(manager.workspaces[0].path, "/usr");
    assert_eq!(manager.workspaces[0].tag_file_path, None);
}

#[test]
fn add_workspace_decodes_the_address() {
    let mut manager = WorkspaceManager::new(Vec::new());
    manager.add_workspace(&folder("file:///my%20project/src", "p"));
    assert_eq!(manager.workspaces.len(), 1);
    assert_eq!(manager.workspaces[0].path, "/my project/src");
    assert_eq!(manager.workspaces[0].folder.uri, "file:///my%20project/src");
}

#[test]
fn add_workspace_adds_every_new_address_with_a_local_path() {
    let mut manager = WorkspaceManager::new(names(&["surely-not-there-7f3a"]));
    manager.add_workspace(&folder("file:///surely/not/there/either", "a"));
    manager.add_workspace(&folder("file://localhost/tmp/x", "b"));
    assert_eq!(manager.workspaces.len(), 2);
    assert_eq!(manager.workspaces[0].path, "/surely/not/there/either");
    assert_eq!(manager.workspaces[0].tag_file_path, None);
    assert_eq!(manager.workspaces[1].path, "/tmp/x");
}

#[test]
fn add_workspace_is_idempotent() {
    let mut manager = WorkspaceManager::new(names(&["bin"]));
    manager.add_workspace(&folder("file:///usr", "usr"));
    manager.add_workspace(&folder("file:///usr", "usr"));
    manager.add_workspace(&folder("file:///usr", "again"));
    assert_eq!(manager.workspaces.len(), 1);
    assert_eq!(manager.workspaces[0].folder.name, "usr");
}

#[test]
fn add_workspace_passes_over_what_is_no_local_path() {
    let mut manager = WorkspaceManager::new(names(&["tags"]));
    manager.add_workspace(&folder("not an address", "x"));
    manager.add_workspace(&folder("file://remote.example/share", "y"));
    manager.add_workspace(&folder("mailto:someone@example.org", "z"));
    assert!(manager.workspaces.is_empty());
}

#[test]
fn remove_workspace_needs_address_and_name() {
    let mut manager = WorkspaceManager::new(names(&["tags"]));
    manager.register(&folder("file:///p", "p"), "/p".to_string(), None);
    manager.register(&folder("file:///q", "q"), "/q".to_string(), None);
    manager.remove_workspace(&folder("file:///p", "other name"));
    assert_eq!(manager.workspaces.len(), 2);
    manager.remove_workspace(&folder("file:///other", "p"));
    assert_eq!(manager.workspaces.len(), 2);
    manager.remove_workspace(&folder("file:///p", "p"));
    assert_eq!(manager.workspaces.len(), 1);
    assert_eq!(manager.workspaces[0].folder.uri, "file:///q");
    manager.remove_workspace(&folder("file:///p", "p"));
    assert_eq!(manager.workspaces.len(), 1);
}

#[test]
fn remove_workspaces_keeps_the_order_of_the_rest() {
    let mut manager = WorkspaceManager::new(names(&["tags"]));
    for name in ["a", "b", "c", "d"] {
        manager.register(&folder(&format!("file:///{}", name), name), format!("/{}", name), None);
    }
    manager.remove_workspaces(&vec![folder("file:///c", "c"), folder("file:///a", "a")]);
    assert_eq!(manager.workspaces.len(), 2);
    assert_eq!(manager.workspaces[0].folder.name, "b");
    assert_eq!(manager.workspaces[1].folder.name, "d");
}

#[test]
fn add_workspaces_adds_each_in_turn() {
    let mut manager = WorkspaceManager::new(names(&["bin"]));
    manager.add_workspaces(&vec![
        folder("file:///usr", "usr"),
        folder("nonsense", "bad"),
        folder("file:///", "top"),
        folder("file:///usr", "usr"),
    ]);
    assert_eq!(manager.workspaces.len(), 2);
    assert_eq!(manager.workspaces[0].folder.name, "usr");
    assert_eq!(manager.workspaces[1].folder.name, "top");
    assert_eq!(manager.workspaces[1].path, "/");
    assert_eq!(manager.workspaces[1].tag_file_path, Some("//bin".to_string()));
}

#[test]
fn initialize_defaults_to_the_pattern_tags() {
    let manager = InitializeHandler::initialize_workspaces(None, None, None);
    assert_eq!(manager.config.tag_file_patterns, vec!["tags"]);
    assert!(manager.workspaces.is_empty());
}

#[test]
fn initialize_takes_the_patterns_it_is_given() {
    let manager =
        InitializeHandler::initialize_workspaces(Some(names(&[".tags", "bin"])), None, None);
    assert_eq!(manager.config.tag_file_patterns, vec![".tags", "bin"]);
    let none = InitializeHandler::initialize_workspaces(Some(Vec::new()), None, None);
    assert!(none.config.tag_file_patterns.is_empty());
}

#[test]
fn initialize_adds_the_listed_folders() {
    let manager = InitializeHandler::initialize_workspaces(
        Some(names(&["bin"])),
        Some(vec![folder("file:///usr", "usr"), folder("file:///etc", "etc")]),
        Some("file:///ignored".to_string()),
    );
    assert_eq!(manager.workspaces.len(), 2);
    assert_eq!(manager.workspaces[0].folder.name, "usr");
    assert_eq!(manager.workspaces[0].tag_file_path, Some("/usr/bin".to_string()));
    assert_eq!(manager.workspaces[1].folder.name, "etc");
    assert_eq!(manager.workspaces[1].tag_file_path, None);
}

#[test]
fn initialize_with_empty_folder_list_ignores_the_root() {
    let manager = InitializeHandler::initialize_workspaces(
        None,
        Some(Vec::new()),
        Some("file:///usr".to_string()),
    );
    assert!(manager.workspaces.is_empty());
}

#[test]
fn initialize_falls_back_to_the_root() {
    let manager =
        InitializeHandler::initialize_workspaces(None, None, Some("file:///usr".to_string()));
    assert_eq!(manager.workspaces.len(), 1);
    assert_eq!(manager.workspaces[0].folder.uri, "file:///usr");
    assert_eq!(manager.workspaces[0].folder.name, "root");
    assert_eq!(manager.workspaces[0].path, "/usr");
}

#[test]
fn initialize_request_sets_the_roots_up_anew() {
    let mut server = LspServer::new();
    server.workspace_manager.register(&folder("file:///old", "old"), "/old".to_string(), None);
    let count = InitializeHandler.handle(
        &mut server,
        Some(names(&["bin"])),
        Some(vec![folder("file:///usr", "usr")]),
        None,
    );
    assert_eq!(count, 1);
    assert_eq!(server.workspace_manager.workspaces.len(), 1);
    assert_eq!(server.workspace_manager.workspaces[0].folder.name, "usr");
    assert_eq!(server.workspace_manager.config.tag_file_patterns, vec!["bin"]);
}
