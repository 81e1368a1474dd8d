//! Values that a viewer of archives shows: tree lines, tabs and differences.

use vstd::prelude::*;
use crate::search::{SearchId, SearchResult};

verus! {

/// One line of the file tree as a viewer shows it.
#[derive(Debug)]
pub struct TreeNode {
    pub id: usize,
    pub is_dir: bool,
    pub title: String,
    /// Number of open folders that end with this line.
    pub close_count: usize,
    /// Path of the entry inside the overlay.
    pub vfs_path: String,
}

/// A difference between two builds.
#[derive(Debug, Clone)]
pub enum DiffResult {
    /// The modified build has a file that the base build lacks.
    Added { path: String },
    /// Both builds have the file, with different content.
    Changed { base_path: String, modified_path: String },
}

impl DiffResult {
    /// The path by which differences are ordered and filtered.
    pub fn comparison_path(&self) -> (r: &str)
        ensures
            r@ == match *self {
                DiffResult::Added { path } => path@,
                DiffResult::Changed { base_path, .. } => base_path@,
            },
    {
        match self {
            DiffResult::Added { path } => path.as_str(),
            DiffResult::Changed { base_path, .. } => base_path.as_str(),
        }
    }
}

/// What a tab of a viewer shows.
#[derive(Clone)]
pub enum TabKind {
    Editor(EditorData),
    SearchResults(SearchData),
    Diff(DiffData),
}

/// An opened file.
#[derive(Clone)]
pub struct EditorData {
    /// Path of the file inside the overlay.
    pub opened_file: String,
    pub title: String,
    pub contents: String,
}

/// The results of one search.
#[derive(Clone)]
pub struct SearchData {
    pub query: String,
    pub tab_title: String,
    pub id: SearchId,
    pub results: Vec<SearchResult>,
}

/// The differences between two builds.
#[derive(Clone)]
pub struct DiffData {
    pub modified: Vec<DiffResult>,
    pub modified_filtered: Option<Vec<DiffResult>>,
    pub path_filter: String,
}

impl TabKind {
    /// The title of the tab: that of its file or search; a diff is titled "Diff".
    pub fn title(&self) -> (r: &str)
        ensures
            r@ == match *self {
                TabKind::Editor(data) => data.title@,
                TabKind::SearchResults(data) => data.tab_title@,
                TabKind::Diff(_) => "Diff"@,
            },
    {
        match self {
            TabKind::Editor(data) => data.title.as_str(),
            TabKind::SearchResults(data) => data.tab_title.as_str(),
            TabKind::Diff(_results) => "Diff",
        }
    }
}

} // verus!
