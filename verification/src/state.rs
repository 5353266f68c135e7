//! Plain data carried between the application shell and the verified core:
//! the UI mode, file-tree nodes, command results and chat payloads.

use vstd::prelude::*;

use crate::text::{ci_matches, str_ci_matches};

verus! {

/// The application's interaction mode.
#[derive(Clone, PartialEq, Eq, Debug, Structural)]
pub enum Mode {
    Terminal,
    Ide,
    Chat,
    Agent,
}

/// The mode named by `s`, up to ASCII case; anything unrecognised is the
/// terminal mode.
pub open spec fn spec_mode_from(s: Seq<char>) -> Mode {
    if ci_matches(s, "ide"@) {
        Mode::Ide
    } else if ci_matches(s, "chat"@) {
        Mode::Chat
    } else if ci_matches(s, "agent"@) {
        Mode::Agent
    } else {
        Mode::Terminal
    }
}

impl Mode {
    /// Parses a mode name, defaulting to the terminal mode.
    pub fn from_str(value: &str) -> (r: Mode)
        ensures
            r == spec_mode_from(value@),
    {
        if str_ci_matches(value, "ide") {
            Mode::Ide
        } else if str_ci_matches(value, "chat") {
            Mode::Chat
        } else if str_ci_matches(value, "agent") {
            Mode::Agent
        } else {
            Mode::Terminal
        }
    }

    /// The canonical name of the mode.
    pub fn as_str(&self) -> (r: &'static str)
        ensures
            match self {
                Mode::Terminal => r@ == "terminal"@,
                Mode::Ide => r@ == "ide"@,
                Mode::Chat => r@ == "chat"@,
                Mode::Agent => r@ == "agent"@,
            },
    {
        match self {
            Mode::Terminal => "terminal",
            Mode::Ide => "ide",
            Mode::Chat => "chat",
            Mode::Agent => "agent",
        }
    }
}

impl Default for Mode {
    /// The terminal mode is the default.
    fn default() -> (r: Mode)
        ensures
            r == Mode::Terminal,
    {
        Mode::Terminal
    }
}

/// One node of a directory listing.
#[derive(Debug)]
pub struct FileNode {
    pub name: String,
    pub path: String,
    pub is_dir: bool,
    pub children: Option<Vec<FileNode>>,
}

/// The outcome of one shell command run by the embedder.
#[derive(Debug)]
pub struct CommandResult {
    pub stdout: String,
    pub stderr: String,
    pub code: Option<i32>,
    pub current_dir: Option<String>,
    pub file_tree: Option<Vec<FileNode>>,
}

/// A chat reply handed back to the UI.
#[derive(Debug)]
pub struct ChatResponse {
    pub message: String,
}

/// The body of a chat-service reply.
#[derive(Debug)]
pub struct OllamaChatResponse {
    pub message: OllamaChatMessage,
}

/// One message inside a chat-service reply.
#[derive(Debug)]
pub struct OllamaChatMessage {
    pub role: Option<String>,
    pub content: String,
}

} // verus!
