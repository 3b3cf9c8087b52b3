//! The API contract between the server and its UI: the bodies of requests
//! and responses, field for field.
//!
//! The JSON form of each (where a field is absent rather than null, and so
//! on) is given by the serde mirrors of these types that the server keeps.
use vstd::prelude::*;
use std::collections::BTreeMap;

verus! {

// ── Vault selection ──

#[derive(Debug, Clone)]
pub struct VaultInfo {
    pub path: String,
    pub name: String,
    /// Reported by GET /api/vault and omitted by POST, which answers about a
    /// folder it has just confirmed is there.
    pub exists: Option<bool>,
}

#[derive(Debug, Clone, Default)]
pub struct SetVaultRequest {
    pub path: Option<String>,
}

#[derive(Debug, Clone)]
pub struct DirEntry {
    pub name: String,
    pub path: String,
}

#[derive(Debug, Clone)]
pub struct BrowseResponse {
    pub path: String,
    /// None at a filesystem root, where there is nowhere further up to go.
    pub parent: Option<String>,
    pub dirs: Vec<DirEntry>,
    /// Drive letters on Windows, so the picker isn't stranded on one volume.
    pub drives: Vec<String>,
}

// ── Notes ──

/// One note in a folder listing: its filename and its absolute path.
#[derive(Debug, Clone)]
pub struct NoteEntry(pub String, pub String);

#[derive(Debug, Clone)]
pub struct FoldersResponse {
    pub base: String,
    /// Keyed by folder path relative to the base ("." for the base itself),
    /// listing only folders that directly hold notes.
    pub folders: BTreeMap<String, Vec<NoteEntry>>,
}

#[derive(Debug, Clone, Default)]
pub struct SaveFileRequest {
    pub content: String,
}

#[derive(Debug, Clone, Default)]
pub struct CreateRequest {
    pub kind: Option<String>,
    pub parent: Option<String>,
    pub name: Option<String>,
    pub content: String,
}

#[derive(Debug, Clone)]
pub struct CreateResponse {
    pub path: String,
    pub kind: String,
}

#[derive(Debug, Clone, Default)]
pub struct RenameRequest {
    pub path: Option<String>,
    pub name: Option<String>,
}

#[derive(Debug, Clone)]
pub struct RenameResponse {
    pub path: String,
}

#[derive(Debug, Clone, Default)]
pub struct DeleteRequest {
    pub path: Option<String>,
}

#[derive(Debug, Clone)]
pub struct DeleteResponse {
    pub deleted: String,
    pub kind: String,
    /// Handed back to /api/restore, which is what makes an "Undo" offer
    /// possible after deleting a folder of notes.
    pub token: String,
}

#[derive(Debug, Clone, Default)]
pub struct RestoreRequest {
    pub token: Option<String>,
}

#[derive(Debug, Clone)]
pub struct RestoreResponse {
    pub restored: String,
    pub kind: String,
}

/// What the trash records about one deletion, so it can be put back.
#[derive(Debug, Clone)]
pub struct TrashManifest {
    pub path: String,
    pub name: String,
    pub kind: String,
    pub deleted_at: String,
}

// ── Search ──

#[derive(Debug, Clone)]
pub struct SearchResult {
    pub path: String,
    pub name: String,
    /// The first matching line, so the sidebar can show context without
    /// shipping whole notes. Empty when only the filename matched.
    pub snippet: String,
}

#[derive(Debug, Clone)]
pub struct SearchResponse {
    pub query: String,
    pub results: Vec<SearchResult>,
}

// ── Scripts ──

#[derive(Debug, Clone)]
pub struct ScriptInfo {
    pub name: String,
    /// "manual" for scripts/*.py, "hook" for scripts/hooks/*.py.
    pub kind: String,
}

#[derive(Debug, Clone)]
pub struct ScriptsResponse {
    pub scripts: Vec<ScriptInfo>,
    pub dir: String,
    pub exists: bool,
    pub hooks_enabled: bool,
}

#[derive(Debug, Clone, Default)]
pub struct RunScriptRequest {
    pub name: Option<String>,
    pub note: Option<String>,
}

#[derive(Debug, Clone, Default)]
pub struct SetHooksRequest {
    pub enabled: bool,
}

#[derive(Debug, Clone)]
pub struct SetHooksResponse {
    pub hooks_enabled: bool,
}

#[derive(Debug, Clone)]
pub struct ScaffoldResponse {
    pub created: Vec<String>,
    pub dir: String,
}

// ── Images ──

#[derive(Debug, Clone, Default)]
pub struct PasteImageRequest {
    pub note: Option<String>,
    pub name: Option<String>,
    /// Base64, optionally still wrapped in a data: URI — a clipboard image has
    /// no file on disk to upload.
    pub data: Option<String>,
}

#[derive(Debug, Clone)]
pub struct PasteImageResponse {
    pub path: String,
    /// What the note should link to: a sibling folder, so the link survives the
    /// vault being moved or renamed.
    pub markdown: String,
    pub bytes: usize,
}

// ── Errors ──

/// The body every failing endpoint returns.
#[derive(Debug, Clone)]
pub struct ErrorBody {
    pub detail: String,
}

} // verus!
