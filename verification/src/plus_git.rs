//! The git window: the changed files of the active repository as a tree, with a diff of the
//! selected one beside them.

use vstd::prelude::*;

use crate::changes::{
    all_positions, changed_files, diff_totals_fit, display_paths, everything_staged, loaded,
    total_added, total_deleted, total_diff_stat, totals_fit, ChangedFile, DiffStat, StatusEntry,
};
use crate::commit::{
    commit_section_of, message_in, needs_upstream, optional_views, paths_to_stage, typed_text,
    Branch, CommitDesk, CommitOption, CommitPlan, CommitSection, MenuEntry, PushPlan,
};
use crate::display::{display_row, displayed, RowDisplay};
use crate::listing::{
    all_directories, any_directory_expanded, any_expanded, clamp_index, clamped, collapse_tooltip,
    directories_above, directory_at, directory_path, entry_at, file_at, openable_at, openable_entry, positions,
    rows_between, toggle_directory, toggled, visible_depths, Confirmed,
};
use crate::outline::{build_rows, outline};
use crate::preview::{DiffPreview, PreviewTask, PreviewView};
use crate::staging::{request_view, row_request, stage_all_action, stage_request, StageAll, StageRequest};
use crate::tree::{row_depth, row_views, DirectorySet, Row, RowView};

verus! {

/// What happened to the git store that the window watches.
#[derive(Clone, Copy, Debug, PartialEq, Eq, Structural)]
pub enum GitEvent {
    ActiveRepositoryChanged,
    StatusesChanged { active_repository: bool },
    Other,
}

/// What the window does about it.
#[derive(Clone, Copy, Debug, PartialEq, Eq, Structural)]
pub enum GitReaction {
    FollowActiveRepository,
    ReloadEntries,
    Ignore,
}

/// A window outlives the repository it was opened against: a branch switch or a change of active
/// repository would otherwise leave it showing a stale tree forever.
pub fn git_reaction(event: GitEvent) -> (reaction: GitReaction)
    ensures
        reaction == match event {
            GitEvent::ActiveRepositoryChanged => GitReaction::FollowActiveRepository,
            GitEvent::StatusesChanged { active_repository: true } => GitReaction::ReloadEntries,
            _ => GitReaction::Ignore,
        },
{
    match event {
        GitEvent::ActiveRepositoryChanged => GitReaction::FollowActiveRepository,
        GitEvent::StatusesChanged { active_repository } => if active_repository {
            GitReaction::ReloadEntries
        } else {
            GitReaction::Ignore
        },
        GitEvent::Other => GitReaction::Ignore,
    }
}

/// How the list column is sized.
#[derive(Clone, Copy, Debug, PartialEq, Eq, Structural)]
pub enum ListSize {
    /// The whole window.
    Fill,
    /// As wide as the divider was dragged to, beside the diff.
    Column,
    /// As tall as the divider was dragged to, above the diff.
    Band,
}

/// What the window is made of.
#[derive(Clone, Copy, Debug, PartialEq, Eq, Structural)]
pub struct Layout {
    pub list: ListSize,
    /// Whether there is a diff pane, and a divider before it.
    pub diff: bool,
    pub commit_section: bool,
}

/// What the window is made of. Side by side while there is room for both panes, stacked when
/// there is not. Stacked with a diff pane, the window's height is already split between tree and
/// diff; a message box and its buttons on top of that would leave too little of either.
pub open spec fn layout_for(preview_enabled: bool, side_by_side: bool) -> Layout {
    Layout {
        list: if !preview_enabled {
            ListSize::Fill
        } else if side_by_side {
            ListSize::Column
        } else {
            ListSize::Band
        },
        diff: preview_enabled,
        commit_section: side_by_side || !preview_enabled,
    }
}

/// The controls above the list.
#[derive(Clone, Copy, Debug, PartialEq, Eq)]
pub struct HeaderControls {
    /// Whether the button for folding reads as pressed.
    pub every_directory: bool,
    pub compress_tooltip: &'static str,
    /// Whether the collapse button collapses rather than expands.
    pub collapse_all: bool,
    pub collapse_tooltip: &'static str,
    pub preview_enabled: bool,
}

/// The git window, as a value.
pub struct WindowView {
    pub multi_workspace: u64,
    pub workspace: u64,
    pub project: u64,
    pub repository: Option<u64>,
    pub preview: PreviewView,
    pub files: Seq<ChangedFile>,
    pub collapsed: Set<Seq<char>>,
    pub compress: bool,
    pub selected: int,
    pub preview_enabled: bool,
    pub desk: CommitDesk,
}

/// Whether there is anything to step between in the diff of `file`. A file that git has never
/// seen is one block of additions.
pub open spec fn has_hunks(file: ChangedFile) -> bool {
    !file.status.created && !file.status.untracked
}

impl WindowView {
    /// What the list shows: the changed files arranged as a tree, minus anything inside a
    /// collapsed directory.
    pub open spec fn rows(self) -> Seq<RowView> {
        outline(
            display_paths(self.files),
            all_positions(self.files.len()),
            self.compress,
            self.collapsed,
        )
    }

    /// Whether the selection is a row, or the first position of an empty list.
    pub open spec fn selection_in_range(self) -> bool {
        &&& 0 <= self.selected
        &&& self.selected < self.rows().len() || self.selected == 0
    }

    /// The window with its selection moved to `index`, or to the last row before it.
    pub open spec fn selected_at(self, index: int) -> WindowView {
        WindowView { selected: clamped(index, self.rows().len()), ..self }
    }

    /// The window with the selection kept in range of its rows.
    pub open spec fn reselected(self) -> WindowView {
        self.selected_at(self.selected)
    }

    /// The changed file behind the selection that has a diff to show, by position.
    pub open spec fn target(self) -> Option<usize> {
        openable_at(self.rows(), self.selected, self.files)
    }

    /// The window with its diff pane fed whatever the selection points at. A directory has no
    /// diff, so the pane keeps showing the last file; it is cleared only when there is nothing to
    /// show at all.
    pub open spec fn previewed(self) -> WindowView {
        let preview = match self.target() {
            Some(entry) => self.preview.turned_to(
                self.files[entry as int].project_file->0,
                has_hunks(self.files[entry as int]),
            ),
            None => if self.rows().len() == 0 {
                self.preview.cleared()
            } else {
                self.preview
            },
        };
        WindowView { preview, ..self }
    }

    /// What feeding the diff pane asks of it.
    pub open spec fn preview_task(self) -> PreviewTask {
        match self.target() {
            Some(entry) => if self.preview.is_at(self.files[entry as int].project_file->0) {
                PreviewTask::Keep
            } else {
                PreviewTask::Load(self.previewed().preview.load)
            },
            None => if self.rows().len() == 0 {
                PreviewTask::Clear
            } else {
                PreviewTask::Keep
            },
        }
    }

    /// The position after the selection, the first one again behind the last.
    pub open spec fn next_index(self) -> int {
        if self.selected + 1 < self.rows().len() {
            self.selected + 1
        } else {
            0
        }
    }

    /// The position before the selection, the last one before the first.
    pub open spec fn previous_index(self) -> int {
        if self.selected > 0 {
            self.selected - 1
        } else {
            self.rows().len() - 1
        }
    }

    /// The last position of the list.
    pub open spec fn last_index(self) -> int {
        if self.rows().len() > 0 {
            self.rows().len() - 1
        } else {
            0
        }
    }

    /// The window with the selected directory collapsed or expanded. Unchanged where the
    /// selection is no directory.
    pub open spec fn directory_toggled(self) -> WindowView {
        match directory_at(self.rows(), self.selected) {
            Some(path) => (WindowView {
                collapsed: toggled(self.collapsed, path),
                ..self
            }).reselected(),
            None => self,
        }
    }

    /// The window with every directory collapsed, or every directory expanded when none was left
    /// expanded.
    pub open spec fn all_toggled(self) -> WindowView {
        let collapsed = if any_expanded(self.rows()) {
            directories_above(display_paths(self.files))
        } else {
            Set::empty()
        };
        (WindowView { collapsed, ..self }).reselected()
    }

    /// The window listing `files`.
    pub open spec fn listing(self, files: Seq<ChangedFile>) -> WindowView {
        (WindowView { files, ..self }).reselected()
    }

    /// The window showing a repository that lists `files`, with everything gone that described
    /// the last one.
    pub open spec fn adopted(self, repository: Option<u64>, files: Seq<ChangedFile>) -> WindowView {
        WindowView {
            repository,
            preview: self.preview.cleared(),
            files,
            collapsed: Set::empty(),
            selected: 0,
            ..self
        }
    }

    /// What the controls above the list show.
    pub open spec fn header(self, controls: HeaderControls) -> bool {
        &&& controls.every_directory == !self.compress
        &&& controls.compress_tooltip@ == if self.compress {
            "Show Every Directory"@
        } else {
            "Fold Single-Child Directories"@
        }
        &&& controls.collapse_all == any_expanded(self.rows())
        &&& controls.collapse_tooltip@ == if any_expanded(self.rows()) {
            "Collapse All"@
        } else {
            "Expand All"@
        }
        &&& controls.preview_enabled == self.preview_enabled
    }
}

pub struct PlusGitWindow {
    /// The editor window this one belongs to. Also what tells one git window from another when
    /// the action fires again.
    multi_workspace: u64,
    /// Whichever workspace that editor window is currently showing, not the one it opened
    /// against: switching worktrees switches the project, and with it the repository.
    workspace: u64,
    project: u64,
    /// `None` when the project has no git repository, which shows as an empty list.
    repository: Option<u64>,
    preview: DiffPreview,
    entries: Vec<ChangedFile>,
    /// What the list actually shows: `entries` arranged as a tree, minus anything inside a
    /// collapsed directory. Rebuilt whenever the entries or the collapsed set change.
    rows: Vec<Row>,
    /// Directories the user has collapsed, keyed by their full path. Absent means expanded.
    collapsed_dirs: DirectorySet,
    /// Whether a chain of directories with nothing else in it is folded into one row
    /// (`assets/themes/gruvbox`) or given a row per level.
    compress_directories: bool,
    selected_index: usize,
    /// Whether the user wants the diff pane at all.
    preview_enabled: bool,
    desk: CommitDesk,
}

impl View for PlusGitWindow {
    type V = WindowView;

    closed spec fn view(&self) -> WindowView {
        WindowView {
            multi_workspace: self.multi_workspace,
            workspace: self.workspace,
            project: self.project,
            repository: self.repository,
            preview: self.preview@,
            files: self.entries@,
            collapsed: self.collapsed_dirs@,
            compress: self.compress_directories,
            selected: self.selected_index as int,
            preview_enabled: self.preview_enabled,
            desk: self.desk,
        }
    }
}

impl PlusGitWindow {
    /// Whether the rows at hand are those of the files and the collapsed set.
    pub closed spec fn rows_are_current(&self) -> bool {
        row_views(self.rows@) == self@.rows()
    }

    /// Holds between any two calls: the list shows what it should, and the selection is in it.
    pub open spec fn wf(&self) -> bool {
        &&& self.rows_are_current()
        &&& self@.selection_in_range()
    }

    /// A window on whatever the editor window is showing.
    pub fn new(
        multi_workspace: u64,
        workspace: u64,
        project: u64,
        repository: Option<u64>,
        entries: Vec<StatusEntry>,
    ) -> (window: Self)
        ensures
            window.wf(),
            loaded(repository, entries@, window@.files),
            window@ == (WindowView {
                multi_workspace,
                workspace,
                project,
                repository,
                preview: PreviewView::blank(0),
                files: window@.files,
                collapsed: Set::empty(),
                compress: true,
                selected: 0,
                preview_enabled: true,
                desk: CommitDesk {
                    committing: false,
                    pushing: false,
                    amend: false,
                    signoff: false,
                    skip_hooks: false,
                },
            }),
    {
        let mut window = PlusGitWindow {
            multi_workspace,
            workspace,
            project,
            repository,
            preview: DiffPreview::new(),
            entries: Vec::new(),
            rows: Vec::new(),
            collapsed_dirs: DirectorySet::new(),
            compress_directories: true,
            selected_index: 0,
            preview_enabled: true,
            desk: CommitDesk::new(),
        };
        window.reload_entries(entries);
        window
    }

    /// Arranges the entries into `rows`: one tree holding tracked and untracked files together,
    /// so a directory containing both shows them side by side rather than twice under two
    /// headings.
    fn rebuild_rows(&mut self)
        ensures
            final(self).wf(),
            final(self)@ == old(self)@.reselected(),
    {
        let order = positions(self.entries.len());
        self.rows = build_rows(
            &self.entries,
            &order,
            self.compress_directories,
            &self.collapsed_dirs,
        );
        proof {
            assert(row_views(self.rows@).len() == self.rows@.len());
            assert(self.entries.len() == self.entries@.len());
        }
        self.selected_index = clamp_index(self.selected_index, self.rows.len());
    }

    /// Lists the repository's changes, as its status now stands. Without a repository the list
    /// is empty.
    pub fn reload_entries(&mut self, entries: Vec<StatusEntry>)
        ensures
            final(self).wf(),
            loaded(old(self)@.repository, entries@, final(self)@.files),
            final(self)@ == old(self)@.listing(final(self)@.files),
    {
        self.entries = if self.repository.is_some() {
            changed_files(entries)
        } else {
            Vec::new()
        };
        self.rebuild_rows();
    }

    /// Shows a repository, discarding everything that described the last one.
    pub fn adopt_repository(&mut self, repository: Option<u64>, entries: Vec<StatusEntry>)
        ensures
            final(self).wf(),
            loaded(repository, entries@, final(self)@.files),
            final(self)@ == old(self)@.adopted(repository, final(self)@.files),
    {
        self.repository = repository;
        self.preview.clear();
        self.collapsed_dirs.clear();
        self.selected_index = 0;
        self.reload_entries(entries);
    }

    /// Repoints the window at whichever repository is now active, and reloads from it. Returns
    /// whether that is another one than before.
    pub fn follow_active_repository(
        &mut self,
        repository: Option<u64>,
        entries: Vec<StatusEntry>,
    ) -> (changed: bool)
        requires
            old(self).wf(),
        ensures
            final(self).wf(),
            final(self)@.repository == repository,
            changed == (repository != old(self)@.repository),
            !changed ==> final(self)@ == old(self)@,
            changed ==> loaded(repository, entries@, final(self)@.files),
            changed ==> final(self)@ == old(self)@.adopted(repository, final(self)@.files),
    {
        let same = match (repository, self.repository) {
            (Some(new), Some(current)) => new == current,
            (None, None) => true,
            _ => false,
        };
        if same {
            return false;
        }
        self.adopt_repository(repository, entries);
        true
    }

    /// Follows the editor window from one workspace to another.
    ///
    /// Everything shown here belongs to a project, so switching worktrees has to replace all of
    /// it rather than leave the previous worktree's changes on screen. Returns whether the
    /// project is another one than before.
    pub fn follow_workspace(
        &mut self,
        workspace: u64,
        project: u64,
        repository: Option<u64>,
        entries: Vec<StatusEntry>,
    ) -> (changed: bool)
        requires
            old(self).wf(),
        ensures
            final(self).wf(),
            final(self)@.project == project,
            changed == (project != old(self)@.project),
            !changed ==> final(self)@ == old(self)@,
            changed ==> loaded(repository, entries@, final(self)@.files),
            changed ==> final(self)@ == (WindowView { workspace, project, ..old(self)@ }).adopted(
                repository,
                final(self)@.files,
            ),
    {
        if project == self.project {
            return false;
        }
        self.workspace = workspace;
        self.project = project;
        self.adopt_repository(repository, entries);
        true
    }

    /// Feeds the preview whatever the selection now points at. A directory has no diff, so the
    /// pane keeps showing the last file rather than blanking as you move through the tree.
    fn update_preview(&mut self) -> (task: PreviewTask)
        requires
            old(self).wf(),
        ensures
            final(self).wf(),
            final(self)@ == old(self)@.previewed(),
            task == old(self)@.preview_task(),
    {
        proof {
            assert(row_views(self.rows@).len() == self.rows@.len());
        }
        match openable_entry(&self.rows, self.selected_index, &self.entries) {
            Some(entry) => {
                let file = &self.entries[entry];
                let hunks = !file.status.created && !file.status.untracked;
                match &file.project_file {
                    Some(project_file) => {
                        match self.preview.show(project_file, hunks) {
                            Some(load) => PreviewTask::Load(load),
                            None => PreviewTask::Keep,
                        }
                    },
                    None => PreviewTask::Keep,
                }
            },
            None => {
                if self.rows.len() == 0 {
                    self.preview.clear();
                    PreviewTask::Clear
                } else {
                    PreviewTask::Keep
                }
            },
        }
    }

    /// Moves the selection to `index`, or to the last row before it.
    pub fn select(&mut self, index: usize) -> (task: PreviewTask)
        requires
            old(self).wf(),
        ensures
            final(self).wf(),
            final(self)@ == old(self)@.selected_at(index as int).previewed(),
            task == old(self)@.selected_at(index as int).preview_task(),
    {
        proof {
            assert(row_views(self.rows@).len() == self.rows@.len());
        }
        self.selected_index = clamp_index(index, self.rows.len());
        self.update_preview()
    }

    /// Moves the selection one row down, from the last one to the first.
    pub fn select_next(&mut self) -> (task: PreviewTask)
        requires
            old(self).wf(),
        ensures
            final(self).wf(),
            old(self)@.rows().len() == 0 ==> final(self)@ == old(self)@ && task
                == PreviewTask::Keep,
            old(self)@.rows().len() > 0 ==> {
                let moved = old(self)@.selected_at(old(self)@.next_index());
                final(self)@ == moved.previewed() && task == moved.preview_task()
            },
    {
        proof {
            assert(row_views(self.rows@).len() == self.rows@.len());
        }
        if self.rows.len() == 0 {
            return PreviewTask::Keep;
        }
        let next: usize = if self.selected_index < self.rows.len() - 1 {
            self.selected_index + 1
        } else {
            0
        };
        self.select(next)
    }

    /// Moves the selection one row up, from the first one to the last.
    pub fn select_previous(&mut self) -> (task: PreviewTask)
        requires
            old(self).wf(),
        ensures
            final(self).wf(),
            old(self)@.rows().len() == 0 ==> final(self)@ == old(self)@ && task
                == PreviewTask::Keep,
            old(self)@.rows().len() > 0 ==> {
                let moved = old(self)@.selected_at(old(self)@.previous_index());
                final(self)@ == moved.previewed() && task == moved.preview_task()
            },
    {
        proof {
            assert(row_views(self.rows@).len() == self.rows@.len());
        }
        if self.rows.len() == 0 {
            return PreviewTask::Keep;
        }
        let previous: usize = if self.selected_index > 0 {
            self.selected_index - 1
        } else {
            self.rows.len() - 1
        };
        self.select(previous)
    }

    /// Moves the selection to the first row.
    pub fn select_first(&mut self) -> (task: PreviewTask)
        requires
            old(self).wf(),
        ensures
            final(self).wf(),
            final(self)@ == old(self)@.selected_at(0).previewed(),
            task == old(self)@.selected_at(0).preview_task(),
    {
        self.select(0)
    }

    /// Moves the selection to the last row.
    pub fn select_last(&mut self) -> (task: PreviewTask)
        requires
            old(self).wf(),
        ensures
            final(self).wf(),
            final(self)@ == old(self)@.selected_at(old(self)@.last_index()).previewed(),
            task == old(self)@.selected_at(old(self)@.last_index()).preview_task(),
    {
        proof {
            assert(row_views(self.rows@).len() == self.rows@.len());
        }
        let last: usize = if self.rows.len() > 0 {
            self.rows.len() - 1
        } else {
            0
        };
        self.select(last)
    }

    /// Collapses or expands the selected directory.
    pub fn toggle_selected_directory(&mut self)
        requires
            old(self).wf(),
        ensures
            final(self).wf(),
            final(self)@ == old(self)@.directory_toggled(),
    {
        if let Some(path) = directory_path(&self.rows, self.selected_index) {
            toggle_directory(&mut self.collapsed_dirs, path.as_str());
            self.rebuild_rows();
        }
    }

    /// Enter opens a file in the workspace behind, and collapses or expands a directory.
    pub fn confirm(&mut self) -> (confirmed: Confirmed)
        requires
            old(self).wf(),
        ensures
            final(self).wf(),
            final(self)@ == old(self)@.directory_toggled(),
            confirmed == match directory_at(old(self)@.rows(), old(self)@.selected) {
                Some(_) => Confirmed::Toggled,
                None => match old(self)@.target() {
                    Some(entry) => Confirmed::Open(entry),
                    None => Confirmed::Nothing,
                },
            },
    {
        if directory_path(&self.rows, self.selected_index).is_some() {
            self.toggle_selected_directory();
            Confirmed::Toggled
        } else {
            match self.open_selected() {
                Some(entry) => Confirmed::Open(entry),
                None => Confirmed::Nothing,
            }
        }
    }

    /// A click on the directory row at `index` selects it, and collapses or expands it.
    pub fn click_directory(&mut self, index: usize) -> (task: PreviewTask)
        requires
            old(self).wf(),
        ensures
            final(self).wf(),
            final(self)@ == old(self)@.selected_at(index as int).previewed().directory_toggled(),
            task == old(self)@.selected_at(index as int).preview_task(),
    {
        let task = self.select(index);
        self.toggle_selected_directory();
        task
    }

    /// A single click on the file row at `index` selects it, a double click opens it. Returns
    /// what the diff pane has to be told, and the changed file to open, if any.
    pub fn click_file(&mut self, index: usize, clicks: usize) -> (done: (
        PreviewTask,
        Option<usize>,
    ))
        requires
            old(self).wf(),
        ensures
            final(self).wf(),
            final(self)@ == old(self)@.selected_at(index as int).previewed(),
            done.0 == old(self)@.selected_at(index as int).preview_task(),
            done.1 == if clicks >= 2 {
                old(self)@.selected_at(index as int).target()
            } else {
                None
            },
    {
        let task = self.select(index);
        let open = if clicks >= 2 {
            self.open_selected()
        } else {
            None
        };
        (task, open)
    }

    /// The changed file that opening the selection opens, by position. There is none for a
    /// directory, nor for a file outside every worktree.
    pub fn open_selected(&self) -> (entry: Option<usize>)
        requires
            self.wf(),
        ensures
            entry == self@.target(),
    {
        openable_entry(&self.rows, self.selected_index, &self.entries)
    }

    /// The changed file behind the selection, by position.
    pub fn selected_entry(&self) -> (entry: Option<usize>)
        requires
            self.wf(),
        ensures
            entry == file_at(self@.rows(), self@.selected, self@.files.len()),
    {
        entry_at(&self.rows, self.selected_index, self.entries.len())
    }

    /// Collapses every directory, or expands every directory when none are left expanded, so one
    /// button covers both directions.
    pub fn toggle_all_directories(&mut self)
        requires
            old(self).wf(),
        ensures
            final(self).wf(),
            final(self)@ == old(self)@.all_toggled(),
    {
        self.collapsed_dirs = if any_directory_expanded(&self.rows) {
            all_directories(&self.entries)
        } else {
            DirectorySet::new()
        };
        self.rebuild_rows();
    }

    /// Folds chains of directories into one row each, or gives every directory a row again.
    pub fn toggle_compress_directories(&mut self)
        requires
            old(self).wf(),
        ensures
            final(self).wf(),
            final(self)@ == (WindowView {
                compress: !old(self)@.compress,
                ..old(self)@
            }).reselected(),
    {
        self.compress_directories = !self.compress_directories;
        self.rebuild_rows();
    }

    /// Shows the diff pane, or hides it.
    pub fn toggle_preview(&mut self)
        requires
            old(self).wf(),
        ensures
            final(self).wf(),
            final(self)@ == (WindowView {
                preview_enabled: !old(self)@.preview_enabled,
                ..old(self)@
            }),
    {
        self.preview_enabled = !self.preview_enabled;
    }

    /// The diff has loaded under the number `load`. Returns whether it is to be shown, which one
    /// that has been overtaken is not.
    pub fn preview_loaded(&mut self, load: u64) -> (shown: bool)
        requires
            old(self).wf(),
        ensures
            final(self).wf(),
            final(self)@ == (WindowView {
                preview: old(self)@.preview.loaded(load),
                ..old(self)@
            }),
            shown == (load == old(self)@.preview.load),
    {
        self.preview.load_finished(load)
    }

    /// The diff failed to load under the number `load`.
    pub fn preview_failed(&mut self, load: u64, error: &str)
        requires
            old(self).wf(),
        ensures
            final(self).wf(),
            final(self)@ == (WindowView {
                preview: old(self)@.preview.failed(load, error@),
                ..old(self)@
            }),
    {
        self.preview.load_failed(load, error);
    }

    /// What pressing the checkbox of the row at `row` asks the repository for. Nothing happens
    /// without a repository.
    pub fn toggle_staged_for_row(&self, row: usize) -> (request: Option<StageRequest>)
        requires
            self.wf(),
        ensures
            request_view(request) == if self@.repository is Some {
                row_request(self@.rows(), self@.files, row as int)
            } else {
                None
            },
    {
        if self.repository.is_some() {
            stage_request(&self.rows, &self.entries, row)
        } else {
            None
        }
    }

    /// What pressing the button that covers the whole repository asks for. Nothing happens
    /// without a repository.
    pub fn toggle_stage_all(&self) -> (action: Option<StageAll>)
        requires
            self.wf(),
        ensures
            action == if self@.repository is None {
                None
            } else if everything_staged(self@.files) {
                Some(StageAll::Unstage)
            } else {
                Some(StageAll::Stage)
            },
    {
        if self.repository.is_some() {
            Some(stage_all_action(&self.entries))
        } else {
            None
        }
    }

    /// Starts a commit with `typed` as its message, where one can start.
    pub fn commit(&mut self, typed: Option<&str>) -> (plan: Option<CommitPlan>)
        requires
            old(self).wf(),
        ensures
            final(self).wf(),
            plan is Some <==> old(self)@.repository is Some && message_in(typed_text(typed)) is Some
                && !old(self)@.desk.committing,
            final(self)@ == (WindowView {
                desk: CommitDesk {
                    committing: old(self)@.desk.committing || plan is Some,
                    ..old(self)@.desk
                },
                ..old(self)@
            }),
            plan matches Some(plan) ==> {
                &&& message_in(typed_text(typed)) == Some(plan.message@)
                &&& optional_views(plan.stage_first) == paths_to_stage(old(self)@.files)
                &&& plan.options == old(self)@.desk.options()
                &&& plan.options.amend == old(self)@.desk.amend
                &&& plan.options.signoff == old(self)@.desk.signoff
                &&& plan.options.skip_hooks == old(self)@.desk.skip_hooks
                &&& !plan.options.allow_empty
                &&& typed is Some && plan.message@ == typed->0@
            },
    {
        self.desk.commit(self.repository.is_some(), typed, &self.entries)
    }

    /// The commit in flight has ended. Returns whether the message box is to be emptied.
    pub fn commit_finished(&mut self, succeeded: bool, has_editor: bool) -> (clear_message: bool)
        requires
            old(self).wf(),
        ensures
            final(self).wf(),
            final(self)@ == (WindowView {
                desk: CommitDesk { committing: false, ..old(self)@.desk },
                ..old(self)@
            }),
            clear_message == (succeeded && has_editor),
    {
        self.desk.commit_finished(succeeded, has_editor)
    }

    /// Starts a push of `branch`, the one checked out, where one can start.
    pub fn push(&mut self, branch: Option<&Branch>) -> (plan: Option<PushPlan>)
        requires
            old(self).wf(),
        ensures
            final(self).wf(),
            plan is Some <==> old(self)@.repository is Some && branch is Some && !old(
                self,
            )@.desk.pushing,
            final(self)@ == (WindowView {
                desk: CommitDesk {
                    pushing: old(self)@.desk.pushing || plan is Some,
                    ..old(self)@.desk
                },
                ..old(self)@
            }),
            plan matches Some(plan) ==> {
                &&& plan.branch_name@ == branch->0.name@
                &&& plan.set_upstream == needs_upstream(branch->0.upstream)
            },
    {
        if self.repository.is_none() {
            return None;
        }
        self.desk.push(branch)
    }

    /// The push in flight has ended.
    pub fn push_finished(&mut self)
        requires
            old(self).wf(),
        ensures
            final(self).wf(),
            final(self)@ == (WindowView {
                desk: CommitDesk { pushing: false, ..old(self)@.desk },
                ..old(self)@
            }),
    {
        self.desk.push_finished();
    }

    /// Turns a commit option on or off.
    pub fn toggle_option(&mut self, option: CommitOption)
        requires
            old(self).wf(),
        ensures
            final(self).wf(),
            final(self)@ == (WindowView { desk: old(self)@.desk.flipped(option), ..old(self)@ }),
    {
        self.desk.toggle(option);
    }

    /// The lines of the commit button's menu.
    pub fn commit_menu(&self, has_previous_commit: bool) -> (entries: Vec<MenuEntry>)
        ensures
            entries@ == self@.desk.menu(self@.repository is Some && has_previous_commit),
    {
        self.desk.commit_menu(self.repository.is_some() && has_previous_commit)
    }

    /// The commit section, with `typed` in the message box.
    pub fn commit_section(&self, typed: Option<&str>, has_branch: bool) -> (section: CommitSection)
        ensures
            section@ == commit_section_of(
                self@.desk,
                typed_text(typed),
                self@.repository is Some && has_branch,
                self@.files,
            ),
    {
        self.desk.commit_section(typed, self.repository.is_some() && has_branch, &self.entries)
    }

    /// The controls above the list.
    pub fn header_controls(&self) -> (controls: HeaderControls)
        requires
            self.wf(),
        ensures
            self@.header(controls),
    {
        let collapse_all = any_directory_expanded(&self.rows);
        HeaderControls {
            every_directory: !self.compress_directories,
            compress_tooltip: if self.compress_directories {
                "Show Every Directory"
            } else {
                "Fold Single-Child Directories"
            },
            collapse_all,
            collapse_tooltip: collapse_tooltip(collapse_all),
            preview_enabled: self.preview_enabled,
        }
    }

    /// Whether the lines added and removed across every changed file can be counted.
    pub fn can_total(&self) -> (fit: bool)
        ensures
            fit == totals_fit(self@.files),
    {
        diff_totals_fit(&self.entries)
    }

    /// Lines added and removed across every changed file. `None` when there are none.
    pub fn total_diff_stat(&self) -> (total: Option<DiffStat>)
        requires
            totals_fit(self@.files),
        ensures
            match total {
                Some(stat) => {
                    &&& stat.added == total_added(self@.files)
                    &&& stat.deleted == total_deleted(self@.files)
                    &&& stat.added + stat.deleted > 0
                },
                None => total_added(self@.files) == 0 && total_deleted(self@.files) == 0,
            },
    {
        total_diff_stat(&self.entries)
    }

    /// What the window is made of, with room for its panes side by side or without.
    pub fn layout(&self, side_by_side: bool) -> (layout: Layout)
        ensures
            layout == layout_for(self@.preview_enabled, side_by_side),
    {
        let split = self.preview_enabled;
        Layout {
            list: if !split {
                ListSize::Fill
            } else if side_by_side {
                ListSize::Column
            } else {
                ListSize::Band
            },
            diff: split,
            commit_section: side_by_side || !split,
        }
    }

    /// What the row at `index` puts on screen.
    pub fn render_row(&self, index: usize) -> (display: Option<RowDisplay>)
        requires
            self.wf(),
        ensures
            displayed(self@.rows(), self@.files, index as int) == match display {
                Some(display) => Some(display@),
                None => None,
            },
    {
        display_row(&self.rows, &self.entries, index)
    }

    /// How deep each row at the positions `start..end` sits.
    pub fn indents(&self, start: usize, end: usize) -> (depths: Vec<usize>)
        requires
            self.wf(),
        ensures
            depths@.map_values(|depth: usize| depth as int) == rows_between(
                self@.rows(),
                start as int,
                end as int,
            ).map_values(|row: RowView| row_depth(row)),
    {
        visible_depths(&self.rows, start..end)
    }

    /// The rows of the list.
    pub fn rows(&self) -> (rows: &Vec<Row>)
        requires
            self.wf(),
        ensures
            row_views(rows@) == self@.rows(),
    {
        &self.rows
    }

    /// The changed files.
    pub fn entries(&self) -> (entries: &Vec<ChangedFile>)
        ensures
            entries@ == self@.files,
    {
        &self.entries
    }

    /// The diff pane.
    pub fn preview(&self) -> (preview: &DiffPreview)
        ensures
            preview@ == self@.preview,
    {
        &self.preview
    }

    pub fn selected_index(&self) -> (index: usize)
        ensures
            index == self@.selected,
    {
        self.selected_index
    }

    pub fn multi_workspace(&self) -> (id: u64)
        ensures
            id == self@.multi_workspace,
    {
        self.multi_workspace
    }

    pub fn workspace(&self) -> (id: u64)
        ensures
            id == self@.workspace,
    {
        self.workspace
    }

    pub fn project(&self) -> (id: u64)
        ensures
            id == self@.project,
    {
        self.project
    }

    pub fn repository(&self) -> (id: Option<u64>)
        ensures
            id == self@.repository,
    {
        self.repository
    }
}

} // verus!
