//! What the first request of a session sets up.

use crate::server::LspServer;
use crate::text::texts;
use crate::workspace::{
    adds_all, distinct_addresses, folders_of, grown_by, FolderModel, WorkspaceFolder,
    WorkspaceManager, WorkspaceModel,
};
use vstd::prelude::*;
use vstd::string::StringExecFns;

verus! {

/// The names under which tag indexes are looked for: those that the request
/// gives, or `tags` alone.
pub open spec fn initial_patterns(tags: Option<Vec<String>>) -> Seq<Seq<char>> {
    match tags {
        Some(names) => texts(names@),
        None => seq!["tags"@],
    }
}

/// The folders that the session starts with: those that the request lists;
/// without a list, the root that it names, as a folder called `root`; else
/// none.
pub open spec fn initial_folders(
    workspace_folders: Option<Vec<WorkspaceFolder>>,
    root_uri: Option<String>,
) -> Seq<FolderModel> {
    match workspace_folders {
        Some(folders) => folders_of(folders@),
        None => match root_uri {
            Some(uri) => seq![FolderModel { uri: uri@, name: "root"@ }],
            None => Seq::empty(),
        },
    }
}

/// Answers the request that starts a session.
pub struct InitializeHandler;

impl InitializeHandler {
    /// The roots that a session starts with. Each stands for one of the
    /// folders of the request.
    pub fn initialize_workspaces(
        tags: Option<Vec<String>>,
        workspace_folders: Option<Vec<WorkspaceFolder>>,
        root_uri: Option<String>,
    ) -> (manager: WorkspaceManager)
        ensures
            manager.patterns() == initial_patterns(tags),
            adds_all(
                Seq::<WorkspaceModel>::empty(),
                initial_folders(workspace_folders, root_uri),
                initial_patterns(tags),
                manager.roots(),
            ),
            distinct_addresses(manager.roots()),
            grown_by(
                Seq::<WorkspaceModel>::empty(),
                initial_folders(workspace_folders, root_uri),
                initial_patterns(tags),
                manager.roots(),
            ),
    {
        let tag_patterns = match tags {
            Some(names) => names,
            None => {
                let mut names: Vec<String> = Vec::new();
                names.push(String::from_str("tags"));
                assert(texts(names@) == seq!["tags"@]);
                names
            },
        };
        let mut manager = WorkspaceManager::new(tag_patterns);
        match workspace_folders {
            Some(folders) => {
                manager.add_workspaces(&folders);
            },
            None => match root_uri {
                Some(uri) => {
                    let mut folders: Vec<WorkspaceFolder> = Vec::new();
                    folders.push(WorkspaceFolder { uri, name: String::from_str("root") });
                    assert(folders_of(folders@) == seq![FolderModel { uri: uri@, name: "root"@ }]);
                    manager.add_workspaces(&folders);
                },
                None => {
                    assert(manager.roots().take(0) == manager.roots());
                    assert(crate::workspace::stand_for(
                        manager.roots().skip(0),
                        initial_folders(workspace_folders, root_uri),
                        initial_patterns(tags),
                        Seq::<int>::empty(),
                    ));
                },
            },
        }
        manager
    }

    /// Starts the session of `server`: its roots are set up anew, and how
    /// many there are is the answer.
    pub fn handle(
        &self,
        server: &mut LspServer,
        tags: Option<Vec<String>>,
        workspace_folders: Option<Vec<WorkspaceFolder>>,
        root_uri: Option<String>,
    ) -> (count: usize)
        ensures
            final(server).documents == old(server).documents,
            final(server).shutdown_requested == old(server).shutdown_requested,
            final(server).workspace_manager.patterns() == initial_patterns(tags),
            adds_all(
                Seq::<WorkspaceModel>::empty(),
                initial_folders(workspace_folders, root_uri),
                initial_patterns(tags),
                final(server).workspace_manager.roots(),
            ),
            distinct_addresses(final(server).workspace_manager.roots()),
            grown_by(
                Seq::<WorkspaceModel>::empty(),
                initial_folders(workspace_folders, root_uri),
                initial_patterns(tags),
                final(server).workspace_manager.roots(),
            ),
            count == final(server).workspace_manager.roots().len(),
    {
        server.workspace_manager = Self::initialize_workspaces(tags, workspace_folders, root_uri);
        server.workspace_manager.workspaces.len()
    }
}

} // verus!
