//! What the server settles when a session begins.

use crate::backend::Backend;
use vstd::prelude::*;

verus! {

/// How the client is asked to report changes of an open file.
#[derive(Clone, Copy, Debug, PartialEq, Eq, Structural)]
pub enum TextDocumentSyncKind {
    /// Changes are not reported.
    Unreported,
    /// Each change comes with the whole text.
    Full,
}

/// Begins a session: the workspace takes the folders the client names, if
/// it names any, and changes are asked for in full exactly where the client
/// has switched instant symbol refresh on.
pub fn init(
    backend: &mut Backend,
    instant_symbol_refresh: Option<bool>,
    workspace_folders: Option<Vec<String>>,
) -> (sync: TextDocumentSyncKind)
    ensures
        sync == if instant_symbol_refresh == Some(true) {
            TextDocumentSyncKind::Full
        } else {
            TextDocumentSyncKind::Unreported
        },
        final(backend).ws_folder == match workspace_folders {
            Some(folders) => folders,
            None => old(backend).ws_folder,
        },
        final(backend).parsers == old(backend).parsers,
        final(backend).config == old(backend).config,
{
    let sync = match instant_symbol_refresh {
        Some(true) => TextDocumentSyncKind::Full,
        _ => TextDocumentSyncKind::Unreported,
    };
    if let Some(folders) = workspace_folders {
        backend.ws_folder = folders;
    }
    sync
}

} // verus!
