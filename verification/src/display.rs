//! What a row of a list of changed files puts on screen.

use vstd::prelude::*;

use crate::changes::{
    directory_stage_status, directory_status, row_diff_stat, shown_stat, ChangedFile, DiffStat,
};
use crate::staging::{checkbox, stage_toggle_state, ToggleState};
use crate::tree::{row_views, Row, RowView};

verus! {

/// A row, ready to be drawn.
pub enum RowDisplay {
    Directory { path: String, label: String, depth: usize, collapsed: bool, checkbox: ToggleState },
    File {
        /// Index into the list of changed files.
        entry: usize,
        name: String,
        depth: usize,
        stat: Option<DiffStat>,
        checkbox: ToggleState,
    },
}

/// A row, ready to be drawn, as a value.
pub enum DisplayView {
    Directory {
        path: Seq<char>,
        label: Seq<char>,
        depth: int,
        collapsed: bool,
        checkbox: ToggleState,
    },
    File {
        entry: usize,
        name: Seq<char>,
        depth: int,
        stat: Option<DiffStat>,
        checkbox: ToggleState,
    },
}

impl View for RowDisplay {
    type V = DisplayView;

    open spec fn view(&self) -> DisplayView {
        match self {
            RowDisplay::Directory { path, label, depth, collapsed, checkbox } =>
                DisplayView::Directory {
                path: path@,
                label: label@,
                depth: *depth as int,
                collapsed: *collapsed,
                checkbox: *checkbox,
            },
            RowDisplay::File { entry, name, depth, stat, checkbox } => DisplayView::File {
                entry: *entry,
                name: name@,
                depth: *depth as int,
                stat: *stat,
                checkbox: *checkbox,
            },
        }
    }
}

/// What the row at `index` puts on screen. Nothing, where there is no such row, or no listed file
/// behind it.
pub open spec fn displayed(
    rows: Seq<RowView>,
    files: Seq<ChangedFile>,
    index: int,
) -> Option<DisplayView> {
    if !(0 <= index < rows.len()) {
        None
    } else {
        match rows[index] {
            RowView::Directory { path, label, depth, collapsed } => Some(
                DisplayView::Directory {
                    path,
                    label,
                    depth,
                    collapsed,
                    checkbox: checkbox(directory_status(files, path)),
                },
            ),
            RowView::File { entry, depth } => if entry < files.len() {
                let file = files[entry as int];
                Some(
                    DisplayView::File {
                        entry,
                        name: file.file_name@,
                        depth,
                        stat: shown_stat(file),
                        checkbox: checkbox(file.status.staging),
                    },
                )
            } else {
                None
            },
        }
    }
}

/// What the row at `index` puts on screen.
pub fn display_row(
    rows: &Vec<Row>,
    files: &Vec<ChangedFile>,
    index: usize,
) -> (display: Option<RowDisplay>)
    ensures
        displayed(row_views(rows@), files@, index as int) == match display {
            Some(display) => Some(display@),
            None => None,
        },
{
    if index >= rows.len() {
        return None;
    }
    proof {
        assert(row_views(rows@)[index as int] == rows@[index as int]@);
    }
    match &rows[index] {
        Row::Directory { path, label, depth, collapsed } => Some(
            RowDisplay::Directory {
                path: path.clone(),
                label: label.clone(),
                depth: *depth,
                collapsed: *collapsed,
                checkbox: stage_toggle_state(directory_stage_status(files, path.as_str())),
            },
        ),
        Row::File { entry, depth } => if *entry < files.len() {
            let file = &files[*entry];
            Some(
                RowDisplay::File {
                    entry: *entry,
                    name: file.file_name.clone(),
                    depth: *depth,
                    stat: row_diff_stat(file),
                    checkbox: stage_toggle_state(file.status.staging),
                },
            )
        } else {
            None
        },
    }
}

} // verus!
