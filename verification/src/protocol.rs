//! The messages exchanged with the UI and the payloads they carry.

use vstd::prelude::*;

verus! {

/// A request from the UI. `id` is echoed back on the matching response.
#[derive(Debug, Clone, PartialEq)]
pub struct Request {
    pub id: u64,
    pub command: Command,
}

/// What a request asks the server to do.
#[derive(Debug, Clone, PartialEq)]
pub enum Command {
    WorkspaceInfo,
    WorktreeEntries { path: String },
    BufferRead { path: String },
    TerminalCreate { cols: u16, rows: u16 },
    TerminalInput { terminal_id: u64, data: String },
    TerminalResize { terminal_id: u64, cols: u16, rows: u16 },
    TerminalClose { terminal_id: u64 },
}

/// The successful result of a request, before it is put on the wire.
#[derive(Debug, Clone, PartialEq)]
pub enum Reply {
    Null,
    WorkspaceInfo(WorkspaceInfo),
    Entries(Vec<WorktreeEntry>),
    Buffer(BufferContents),
    TerminalCreated(TerminalCreated),
}

/// Everything the server sends to a client.
#[derive(Debug, Clone, PartialEq)]
pub enum Outgoing {
    Response { id: u64, ok: Reply },
    Error { id: u64, error: String },
    Event(Event),
}

/// Unsolicited notifications.
#[derive(Debug, Clone, PartialEq)]
pub enum Event {
    TerminalOutput { terminal_id: u64, data: String },
    TerminalExit { terminal_id: u64, code: Option<u32> },
    ThreadUpdated { thread: ThreadSnapshot },
    ThreadError { thread_id: String, message: String },
}

#[derive(Debug, Clone, PartialEq)]
pub struct WorkspaceInfo {
    pub root: String,
    pub root_name: String,
}

#[derive(Debug, Clone, PartialEq)]
pub struct WorktreeEntry {
    pub path: String,
    pub name: String,
    pub kind: EntryKind,
    pub is_ignored: bool,
    pub size_bytes: u64,
}

#[derive(Debug, Clone, Copy, PartialEq, Eq)]
pub enum EntryKind {
    Dir,
    File,
}

#[derive(Debug, Clone, PartialEq)]
pub struct BufferContents {
    pub path: String,
    pub text: String,
}

#[derive(Debug, Clone, Copy, PartialEq, Eq)]
pub struct TerminalCreated {
    pub terminal_id: u64,
}

/// One uncommitted change: the path and its trimmed two-letter status code.
#[derive(Debug, Clone, PartialEq)]
pub struct GitChange {
    pub path: String,
    pub status: String,
}

/// The worktree's current branch and uncommitted changes.
#[derive(Debug, Clone, PartialEq)]
pub struct GitStatus {
    pub branch: Option<String>,
    pub changed: Vec<GitChange>,
}

/// A tracked file and its size in bytes.
#[derive(Debug, Clone, PartialEq)]
pub struct FileStat {
    pub path: String,
    pub bytes: u64,
}

/// Every tracked file of `HEAD`.
#[derive(Debug, Clone, PartialEq)]
pub struct GitTree {
    pub files: Vec<FileStat>,
}

/// A directory and the total size of the tracked files below it.
#[derive(Debug, Clone, PartialEq)]
pub struct DirTotal {
    pub path: String,
    pub bytes: u64,
}

/// An agent the workspace can talk to.
#[derive(Debug, Clone, PartialEq)]
pub struct AgentInfo {
    pub id: String,
    pub name: String,
}

#[derive(Debug, Clone, Copy, PartialEq, Eq)]
pub enum ThreadStatus {
    Idle,
    Generating,
}

/// The state of an open agent thread as the UI shows it.
#[derive(Debug, Clone, PartialEq)]
pub struct ThreadSnapshot {
    pub thread_id: String,
    pub agent_id: String,
    pub title: Option<String>,
    pub status: ThreadStatus,
    pub had_error: bool,
    pub entries: Vec<ThreadEntry>,
}

/// One entry of a thread.
#[derive(Debug, Clone, PartialEq)]
pub enum ThreadEntry {
    User { markdown: String },
    Assistant { markdown: String, thoughts: String },
    ToolCall {
        id: String,
        title: String,
        tool_kind: String,
        status: String,
        markdown: String,
        permission_options: Vec<PermissionOption>,
        locations: Vec<String>,
    },
    Plan { entries: Vec<PlanEntry> },
}

#[derive(Debug, Clone, PartialEq)]
pub struct PlanEntry {
    pub content: String,
    pub priority: String,
    pub status: String,
}

#[derive(Debug, Clone, PartialEq)]
pub struct PermissionOption {
    pub id: String,
    pub label: String,
    pub option_kind: String,
}

/// A past session of an agent.
#[derive(Debug, Clone, PartialEq)]
pub struct ThreadSummary {
    pub session_id: String,
    pub title: Option<String>,
    pub updated_at: Option<String>,
    pub work_dirs: Vec<String>,
}

#[derive(Debug, Clone, PartialEq)]
pub struct ThreadList {
    pub agent_id: String,
    pub supports_history: bool,
    pub supports_delete: bool,
    pub threads: Vec<ThreadSummary>,
}

} // verus!
