//! The three kinds of request, and the state that notifications change.

use crate::ctags::CtagsEntry;
use crate::document::{
    apply_changes, changes_apply, ContentChange, DocumentError, DocumentsCache, TextDocument,
};
use crate::goto_handler::GotoHandler;
use crate::text::same_text;
use crate::workspace::{
    adds_all, distinct_addresses, folders_of, grown_by, WorkspaceFolder, WorkspaceManager,
    WorkspaceModel,
};
use vstd::prelude::*;
use vstd::string::StringExecFns;

verus! {

/// Whether `kind` marks a prototype.
pub open spec fn is_prototype(kind: Seq<char>) -> bool {
    kind == "p"@ || kind == "prototype"@
}

/// Whether `kind` marks a function.
pub open spec fn is_function(kind: Seq<char>) -> bool {
    kind == "f"@ || kind == "function"@
}

/// Whether `kind` marks a prototype.
fn marks_prototype(kind: &str) -> (b: bool)
    ensures
        b == is_prototype(kind@),
{
    same_text(kind, "p") || same_text(kind, "prototype")
}

/// Whether `kind` marks a function.
fn marks_function(kind: &str) -> (b: bool)
    ensures
        b == is_function(kind@),
{
    same_text(kind, "f") || same_text(kind, "function")
}

/// Go to definition: every record but prototypes.
pub struct GotoDefinitionHandler;

impl GotoHandler for GotoDefinitionHandler {
    open spec fn accepts(&self, kind: Seq<char>) -> bool {
        !is_prototype(kind)
    }

    fn filter(&self, entry: &CtagsEntry) -> (b: bool) {
        !marks_prototype(entry.kind.as_str())
    }
}

/// Go to declaration: prototypes only.
pub struct GotoDeclarationHandler;

impl GotoHandler for GotoDeclarationHandler {
    open spec fn accepts(&self, kind: Seq<char>) -> bool {
        is_prototype(kind)
    }

    fn filter(&self, entry: &CtagsEntry) -> (b: bool) {
        marks_prototype(entry.kind.as_str())
    }
}

/// Go to implementation: functions only.
pub struct GotoImplementationHandler;

impl GotoHandler for GotoImplementationHandler {
    open spec fn accepts(&self, kind: Seq<char>) -> bool {
        is_function(kind)
    }

    fn filter(&self, entry: &CtagsEntry) -> (b: bool) {
        marks_function(entry.kind.as_str())
    }
}

/// Every kind answers either a definition request or a declaration request,
/// never both; and what answers an implementation request answers a
/// definition request too.
pub proof fn lemma_kinds_partition(kind: Seq<char>)
    ensures
        GotoDefinitionHandler.accepts(kind) != GotoDeclarationHandler.accepts(kind),
        GotoImplementationHandler.accepts(kind) ==> GotoDefinitionHandler.accepts(kind),
        !(GotoImplementationHandler.accepts(kind) && GotoDeclarationHandler.accepts(kind)),
{
    reveal_strlit("p");
    reveal_strlit("prototype");
    reveal_strlit("f");
    reveal_strlit("function");
    if is_function(kind) {
        assert(kind.len() > 0 && kind[0] == 'f');
    }
    if is_prototype(kind) {
        assert(kind.len() > 0 && kind[0] == 'p');
    }
}

/// What a message asks for, by the name of its method.
#[derive(Clone, Copy, Debug, PartialEq, Eq, Structural)]
pub enum Route {
    Initialize,
    Definition,
    Declaration,
    Implementation,
    Shutdown,
    DidOpen,
    DidChange,
    DidClose,
    DidChangeWorkspaceFolders,
    /// A method that is not handled: the message is passed over.
    Unhandled,
}

/// What a request with the method `method` asks for.
pub open spec fn request_route(method: Seq<char>) -> Route {
    if method == "initialize"@ {
        Route::Initialize
    } else if method == "textDocument/definition"@ {
        Route::Definition
    } else if method == "textDocument/declaration"@ {
        Route::Declaration
    } else if method == "textDocument/implementation"@ {
        Route::Implementation
    } else if method == "shutdown"@ {
        Route::Shutdown
    } else {
        Route::Unhandled
    }
}

/// What a notification with the method `method` tells.
pub open spec fn notification_route(method: Seq<char>) -> Route {
    if method == "textDocument/didOpen"@ {
        Route::DidOpen
    } else if method == "textDocument/didChange"@ {
        Route::DidChange
    } else if method == "textDocument/didClose"@ {
        Route::DidClose
    } else if method == "workspace/didChangeWorkspaceFolders"@ {
        Route::DidChangeWorkspaceFolders
    } else {
        Route::Unhandled
    }
}

/// A notification, read from its message.
#[derive(Debug)]
pub enum Notification {
    /// A document was opened with the text `text`.
    DidOpen { uri: String, text: String },
    /// The document was edited: the changes, in their order.
    DidChange { uri: String, changes: Vec<ContentChange> },
    /// The document was closed.
    DidClose { uri: String },
    /// Folders left the workspace and others joined it.
    DidChangeWorkspaceFolders { removed: Vec<WorkspaceFolder>, added: Vec<WorkspaceFolder> },
    /// Anything else.
    Other,
}

/// The open documents after `notification`. Edits are made to an open
/// document only, and only where each of them can be made in turn.
pub open spec fn documents_after(
    documents: Map<Seq<char>, Seq<char>>,
    notification: Notification,
) -> Map<Seq<char>, Seq<char>> {
    match notification {
        Notification::DidOpen { uri, text } => documents.insert(uri@, text@),
        Notification::DidChange { uri, changes } => if edits_refused(
            documents,
            notification,
        ) || !documents.dom().contains(uri@) {
            documents
        } else {
            documents.insert(uri@, apply_changes(documents[uri@], changes@))
        },
        Notification::DidClose { uri } => documents.remove(uri@),
        _ => documents,
    }
}

/// Whether `notification` holds edits of an open document of which one
/// cannot be made.
pub open spec fn edits_refused(
    documents: Map<Seq<char>, Seq<char>>,
    notification: Notification,
) -> bool {
    notification matches Notification::DidChange { uri, changes } && documents.dom().contains(
        uri@,
    ) && !changes_apply(documents[uri@], changes@)
}

/// Whether `after` are the roots after `notification`: the roots that
/// stay, and behind them the roots that the folders that joined add, each
/// in its turn.
pub open spec fn roots_after(
    roots: Seq<WorkspaceModel>,
    patterns: Seq<Seq<char>>,
    notification: Notification,
    after: Seq<WorkspaceModel>,
) -> bool {
    match notification {
        Notification::DidChangeWorkspaceFolders { removed, added } => {
            let kept = roots.filter(|w: WorkspaceModel| !folders_of(removed@).contains(w.folder));
            adds_all(kept, folders_of(added@), patterns, after) && grown_by(
                kept,
                folders_of(added@),
                patterns,
                after,
            )
        },
        _ => after == roots,
    }
}

/// What the server knows between two messages.
pub struct LspServer {
    pub documents: DocumentsCache,
    pub workspace_manager: WorkspaceManager,
    /// Set by a shutdown request; the message after it is not handled.
    pub shutdown_requested: bool,
}

impl LspServer {
    /// A server without documents and roots, which looks for tag indexes
    /// named `tags`.
    pub fn new() -> (server: Self)
        ensures
            server.documents@ == Map::<Seq<char>, Seq<char>>::empty(),
            server.workspace_manager.roots() == Seq::<WorkspaceModel>::empty(),
            server.workspace_manager.patterns() == seq!["tags"@],
            !server.shutdown_requested,
    {
        let mut patterns: Vec<String> = Vec::new();
        patterns.push(String::from_str("tags"));
        let server = Self {
            documents: DocumentsCache::new(),
            workspace_manager: WorkspaceManager::new(patterns),
            shutdown_requested: false,
        };
        assert(server.workspace_manager.patterns() == seq!["tags"@]);
        server
    }

    /// What a request with the method `method` asks for.
    pub fn route_request(method: &str) -> (route: Route)
        ensures
            route == request_route(method@),
    {
        if same_text(method, "initialize") {
            Route::Initialize
        } else if same_text(method, "textDocument/definition") {
            Route::Definition
        } else if same_text(method, "textDocument/declaration") {
            Route::Declaration
        } else if same_text(method, "textDocument/implementation") {
            Route::Implementation
        } else if same_text(method, "shutdown") {
            Route::Shutdown
        } else {
            Route::Unhandled
        }
    }

    /// What a notification with the method `method` tells.
    pub fn route_notification(method: &str) -> (route: Route)
        ensures
            route == notification_route(method@),
    {
        if same_text(method, "textDocument/didOpen") {
            Route::DidOpen
        } else if same_text(method, "textDocument/didChange") {
            Route::DidChange
        } else if same_text(method, "textDocument/didClose") {
            Route::DidClose
        } else if same_text(method, "workspace/didChangeWorkspaceFolders") {
            Route::DidChangeWorkspaceFolders
        } else {
            Route::Unhandled
        }
    }

    /// Notes that a shutdown was requested. Nothing else changes.
    pub fn request_shutdown(&mut self)
        ensures
            final(self).shutdown_requested,
            final(self).documents == old(self).documents,
            final(self).workspace_manager == old(self).workspace_manager,
    {
        self.shutdown_requested = true;
    }

    /// Whether the next message is still to be handled: not after a
    /// shutdown was requested.
    pub fn is_running(&self) -> (b: bool)
        ensures
            b == !self.shutdown_requested,
    {
        !self.shutdown_requested
    }

    /// Takes note of `notification`. Edits of which one cannot be made are
    /// refused as a whole, and the document stays as it was.
    pub fn handle_notification(&mut self, notification: Notification) -> (r: Result<
        (),
        DocumentError,
    >)
        ensures
            final(self).shutdown_requested == old(self).shutdown_requested,
            final(self).documents@ == documents_after(old(self).documents@, notification),
            final(self).workspace_manager.config == old(self).workspace_manager.config,
            roots_after(
                old(self).workspace_manager.roots(),
                old(self).workspace_manager.patterns(),
                notification,
                final(self).workspace_manager.roots(),
            ),
            distinct_addresses(old(self).workspace_manager.roots()) ==> distinct_addresses(
                final(self).workspace_manager.roots(),
            ),
            match r {
                Ok(_) => !edits_refused(old(self).documents@, notification),
                Err(e) => edits_refused(old(self).documents@, notification) && e
                    == DocumentError::InvalidData,
            },
    {
        match notification {
            Notification::DidOpen { uri, text } => {
                self.documents.insert(uri, TextDocument::new(text));
                Ok(())
            },
            Notification::DidChange { uri, changes } => {
                let ghost before = self.documents@;
                match self.documents.get_mut(uri.as_str()) {
                    Some(document) => {
                        let done = document.try_apply_changes(&changes);
                        proof {
                            if !done {
                                assert(before.insert(uri@, before[uri@]) =~= before);
                            }
                        }
                        if done {
                            Ok(())
                        } else {
                            Err(DocumentError::InvalidData)
                        }
                    },
                    None => Ok(()),
                }
            },
            Notification::DidClose { uri } => {
                self.documents.remove(uri.as_str());
                Ok(())
            },
            Notification::DidChangeWorkspaceFolders { removed, added } => {
                self.workspace_manager.remove_workspaces(&removed);
                self.workspace_manager.add_workspaces(&added);
                Ok(())
            },
            Notification::Other => Ok(()),
        }
    }
}

} // verus!
