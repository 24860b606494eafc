//! The data that the viewer works on.
use vstd::prelude::*;

verus! {

/// How a file changed between the two sides.
#[derive(Clone, Copy, Debug, PartialEq, Eq, Structural)]
pub enum FileStatus {
    Added,
    Deleted,
    Modified,
}

/// How one aligned row relates its two sides.
#[derive(Clone, Copy, Debug, PartialEq, Eq, Structural)]
pub enum ChangeType {
    Equal,
    Insert,
    Delete,
    Modified,
}

/// Which panel has the keyboard focus.
#[derive(Clone, Copy, Debug, PartialEq, Eq, Structural)]
pub enum FocusedPanel {
    Sidebar,
    DiffView,
}

/// Which sides of the diff are shown.
#[derive(Clone, Copy, Debug, PartialEq, Eq, Structural)]
pub enum DiffFullscreen {
    Split,
    OldOnly,
    NewOnly,
}

/// One file of a diff: its path, both contents and its status.
#[derive(Clone, Debug, PartialEq, Eq)]
pub struct FileDiff {
    pub filename: String,
    pub old_content: String,
    pub new_content: String,
    pub status: FileStatus,
}

/// The status that the emptiness of the two contents gives.
pub open spec fn status_of(old_empty: bool, new_empty: bool) -> FileStatus {
    if old_empty && !new_empty {
        FileStatus::Added
    } else if !old_empty && new_empty {
        FileStatus::Deleted
    } else {
        FileStatus::Modified
    }
}

impl FileDiff {
    /// A file diff whose status follows from which content is empty.
    pub fn new(filename: String, old_content: String, new_content: String) -> (r: FileDiff)
        ensures
            r.filename@ == filename@,
            r.old_content@ == old_content@,
            r.new_content@ == new_content@,
            r.status == status_of(old_content@.len() == 0, new_content@.len() == 0),
    {
        let old_empty = old_content.as_str().is_empty();
        let new_empty = new_content.as_str().is_empty();
        let status = if old_empty && !new_empty {
            FileStatus::Added
        } else if !old_empty && new_empty {
            FileStatus::Deleted
        } else {
            FileStatus::Modified
        };
        FileDiff { filename, old_content, new_content, status }
    }
}

/// Settings of the context band shown above the first visible row.
#[derive(Clone, Copy, Debug)]
pub struct ContextSettings {
    pub enabled: bool,
    pub max_lines: usize,
}

/// Settings of the diff view.
#[derive(Clone, Copy, Debug)]
pub struct DiffViewSettings {
    pub tab_width: usize,
    pub context: ContextSettings,
}

/// Tab width of the default settings.
pub const DEFAULT_TAB_WIDTH: usize = 4;

/// Size of the context band of the default settings.
pub const DEFAULT_CONTEXT_LINES: usize = 5;

impl DiffViewSettings {
    /// Tabs four wide, a context band of up to five lines.
    pub fn default_settings() -> (r: DiffViewSettings)
        ensures
            r.tab_width == DEFAULT_TAB_WIDTH,
            r.context.enabled,
            r.context.max_lines == DEFAULT_CONTEXT_LINES,
    {
        DiffViewSettings {
            tab_width: DEFAULT_TAB_WIDTH,
            context: ContextSettings { enabled: true, max_lines: DEFAULT_CONTEXT_LINES },
        }
    }
}

} // verus!
