//! What the Herdr socket API reports about panes and tabs.
use vstd::prelude::*;

verus! {

#[derive(Debug, Clone, PartialEq, Eq)]
pub struct Pane {
    pub pane_id: String,
    pub tab_id: String,
    pub workspace_id: String,
    pub cwd: Option<String>,
    pub foreground_cwd: Option<String>,
    pub agent: Option<String>,
    pub agent_status: Option<String>,
    pub terminal_title: Option<String>,
    pub focused: bool,
}

/// A non-empty directory text.
pub open spec fn usable(o: Option<String>) -> bool {
    o is Some && o->0@.len() > 0
}

impl Pane {
    /// The directory a pane works in: its foreground process's directory
    /// when reported and non-empty, else its own directory when non-empty.
    pub open spec fn workdir_of(&self) -> Option<Seq<char>> {
        if usable(self.foreground_cwd) {
            Some(self.foreground_cwd->0@)
        } else if usable(self.cwd) {
            Some(self.cwd->0@)
        } else {
            None
        }
    }

    /// Directory the pane is actually working in, preferring the resolved
    /// foreground process cwd over the (stickier) pane cwd.
    pub fn workdir(&self) -> (r: Option<&str>)
        ensures
            r matches Some(s) ==> self.workdir_of() == Some(s@),
            r is None ==> self.workdir_of() is None,
    {
        if let Some(s) = &self.foreground_cwd {
            let t = s.as_str();
            if !t.is_empty() {
                return Some(t);
            }
        }
        if let Some(s) = &self.cwd {
            let t = s.as_str();
            if !t.is_empty() {
                return Some(t);
            }
        }
        None
    }
}

/// The foreground process's directory wins: when it is reported and
/// non-empty, it is the pane's working directory; the pane's own directory
/// counts only when the foreground one is missing or empty, and then only
/// when it is non-empty itself.
pub proof fn law_foreground_directory_first(p: Pane)
    ensures
        p.foreground_cwd matches Some(f) ==> (f@.len() > 0 ==> p.workdir_of() == Some(f@)),
        (p.foreground_cwd is None || p.foreground_cwd->0@.len() == 0) ==> p.workdir_of() == (
        if p.cwd is Some && p.cwd->0@.len() > 0 {
            Some(p.cwd->0@)
        } else {
            None
        }),
{
}

#[derive(Debug, Clone, PartialEq, Eq)]
pub struct Tab {
    pub tab_id: String,
    pub workspace_id: String,
    pub number: u32,
    pub label: String,
    pub focused: bool,
    pub pane_count: u32,
}

} // verus!
