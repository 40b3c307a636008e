//! The git modal: the changed files of the active repository, filterable, with a diff of the
//! selected one.

use std::ops::Range;

use vstd::prelude::*;

use crate::changes::{
    all_positions, changed_files, diff_totals_fit, display_paths, everything_staged, loaded,
    total_added, total_deleted, total_diff_stat, totals_fit, ChangedFile, DiffStat, StatusEntry,
};
use crate::commit::{
    commit_section_of, message_in, needs_upstream, optional_views, paths_to_stage, typed_text,
    Branch, CommitDesk, CommitOption, CommitPlan, CommitSection, MenuEntry, PushPlan,
};
use crate::display::{display_row, displayed, RowDisplay};
use crate::list_laws::law_collapsing_what_is_shown_collapses_all;
use crate::listing::{
    any_directory_expanded, any_expanded, clamp_index, clamped, collapse_expanded, directory_at,
    directory_path, entry_at, expanded_paths, file_at, openable_at, openable_entry, positions,
    rows_between, toggle_directory, toggled, visible_depths, Confirmed,
};
use crate::outline::{build_rows, outline};
use crate::runs::{next_run, run_after};
use crate::staging::{
    request_view, row_request, stage_all_action, stage_request, StageAll, StageRequest,
};
use crate::text::{decimal, decimal_text};
use crate::tree::{row_depth, row_views, DirectorySet, Row, RowView};

verus! {

/// Upper bound on rows kept after filtering. A repository with more changed files than this is
/// past the point where scrolling a list helps.
pub const MAX_MATCHES: usize = 2_000;

/// Where the picker puts its preview.
#[derive(Clone, Copy, Debug, PartialEq, Eq, Structural)]
pub enum PreviewLayout {
    Hidden,
    Right,
    Below,
}

/// A changed file offered to the filter.
pub struct Candidate {
    /// Index into the list of changed files.
    pub id: usize,
    pub text: String,
}

/// A filter to run.
pub struct FilterRequest {
    /// The number of the filter, to report back under.
    pub filter: u64,
    /// The files to match against the query.
    pub candidates: Vec<Candidate>,
}

/// What the modal lists, as a value.
pub struct DelegateView {
    pub repository: Option<u64>,
    pub files: Seq<ChangedFile>,
    pub matches: Seq<usize>,
    pub rows: Seq<RowView>,
    pub collapsed: Set<Seq<char>>,
    pub query_is_active: bool,
    pub selected: int,
    pub preview_layout: PreviewLayout,
    pub preview_enabled: bool,
    pub desk: CommitDesk,
    pub filter: u64,
}

/// The first of `matches`, up to the bound.
pub open spec fn kept(matches: Seq<usize>) -> Seq<usize> {
    if matches.len() <= MAX_MATCHES {
        matches
    } else {
        matches.take(MAX_MATCHES as int)
    }
}

/// The files listed while there is no query: all of them, up to the bound.
pub open spec fn unfiltered(count: nat) -> Seq<usize> {
    all_positions(
        if count < MAX_MATCHES {
            count
        } else {
            MAX_MATCHES as nat
        },
    )
}

impl DelegateView {
    /// The directories that the tree keeps folded: the collapsed ones, and none while a query is
    /// active, so that a match cannot hide inside a collapsed directory.
    pub open spec fn folded(self) -> Set<Seq<char>> {
        if self.query_is_active {
            Set::empty()
        } else {
            self.collapsed
        }
    }

    /// The rows that show the matches as a tree.
    pub open spec fn outline(self) -> Seq<RowView> {
        outline(display_paths(self.files), self.matches, true, self.folded())
    }

    /// The list with its rows built anew, and the selection kept in range of them.
    pub open spec fn rebuilt(self) -> DelegateView {
        DelegateView {
            rows: self.outline(),
            selected: clamped(self.selected, self.outline().len()),
            ..self
        }
    }

    /// The list of the files `matches`, from the top.
    pub open spec fn showing(self, matches: Seq<usize>) -> DelegateView {
        (DelegateView { matches, selected: 0, ..self }).rebuilt()
    }

    /// The list with the query taken away, and whatever filter was running abandoned.
    pub open spec fn unqueried(self) -> DelegateView {
        (DelegateView {
            query_is_active: false,
            filter: run_after(self.filter),
            ..self
        }).showing(unfiltered(self.files.len()))
    }

    /// The list with a query that is yet to be matched, and whatever filter was running abandoned.
    pub open spec fn queried(self) -> DelegateView {
        DelegateView { query_is_active: true, filter: run_after(self.filter), ..self }
    }

    /// The list after the filter with the number `filter` has matched `matches`, best first: the
    /// best of them are shown, up to the bound. A filter that was abandoned changes nothing.
    pub open spec fn filtered(self, filter: u64, matches: Seq<usize>) -> DelegateView {
        if filter == self.filter {
            self.showing(kept(matches))
        } else {
            self
        }
    }

    /// The list with the selected directory collapsed or expanded. Unchanged where the selection
    /// is no directory, and while a query is active, where the tree is shown fully expanded
    /// regardless.
    pub open spec fn directory_toggled(self) -> DelegateView {
        match directory_at(self.rows, self.selected) {
            Some(path) => if self.query_is_active {
                self
            } else {
                (DelegateView { collapsed: toggled(self.collapsed, path), ..self }).rebuilt()
            },
            None => self,
        }
    }

    /// The list with every directory that is shown expanded collapsed.
    pub open spec fn shown_collapsed(self) -> DelegateView {
        (DelegateView {
            collapsed: self.collapsed.union(expanded_paths(self.rows)),
            ..self
        }).rebuilt()
    }

    /// The list with its directories collapsed until none is shown expanded, or, where none was,
    /// with every directory expanded. Rows that were out of date take a second round. Unchanged
    /// while a query keeps directories expanded regardless.
    pub open spec fn all_toggled(self) -> DelegateView {
        if self.query_is_active && any_expanded(self.rows) {
            self
        } else if any_expanded(self.rows) {
            let once = self.shown_collapsed();
            if any_expanded(once.rows) {
                once.shown_collapsed()
            } else {
                once
            }
        } else {
            (DelegateView { collapsed: Set::empty(), ..self }).rebuilt()
        }
    }

    /// What the status bar says.
    pub open spec fn summary(self) -> Seq<char> {
        if self.files.len() == 0 {
            "No changes"@
        } else if !self.query_is_active {
            decimal(self.files.len()) + " changed files"@
        } else {
            decimal(self.rows.len()) + " of "@ + decimal(self.files.len()) + " changed files"@
        }
    }

    /// What an empty list says.
    pub open spec fn empty_text(self) -> Seq<char> {
        if self.repository is None {
            "No git repository"@
        } else if self.files.len() == 0 {
            "No changes"@
        } else {
            "No matching files"@
        }
    }
}

pub struct IdeaGitDelegate {
    /// `None` when the project has no git repository, which shows as an empty list.
    repository: Option<u64>,
    entries: Vec<ChangedFile>,
    /// Indices into `entries` surviving the current query.
    matches: Vec<usize>,
    /// What the list actually shows: `matches` arranged as a tree, minus anything inside a
    /// collapsed directory. Rebuilt whenever the matches or the collapsed set change.
    rows: Vec<Row>,
    /// Directories the user has collapsed, keyed by their full path. Absent means expanded.
    collapsed_dirs: DirectorySet,
    /// While a query is active the tree renders fully expanded, so a match cannot hide inside a
    /// collapsed directory. `collapsed_dirs` is kept, not cleared, so clearing the query puts the
    /// tree back the way the user left it.
    query_is_active: bool,
    selected_index: usize,
    /// The picker's current preview layout, reported by `preview_layout_changed`.
    preview_layout: PreviewLayout,
    /// Whether the user wants a preview at all. Separate from the layout, which is the picker's.
    preview_enabled: bool,
    desk: CommitDesk,
    /// The number of the last filter. One that is abandoned loses its number, so that what it
    /// matched is not listed under a query that the user has moved on to.
    filter: u64,
}

impl View for IdeaGitDelegate {
    type V = DelegateView;

    closed spec fn view(&self) -> DelegateView {
        DelegateView {
            repository: self.repository,
            files: self.entries@,
            matches: self.matches@,
            rows: row_views(self.rows@),
            collapsed: self.collapsed_dirs@,
            query_is_active: self.query_is_active,
            selected: self.selected_index as int,
            preview_layout: self.preview_layout,
            preview_enabled: self.preview_enabled,
            desk: self.desk,
            filter: self.filter,
        }
    }
}

impl IdeaGitDelegate {
    /// A list of the repository's changes, with nothing shown until it is first filtered.
    pub fn new(repository: Option<u64>, entries: Vec<StatusEntry>) -> (delegate: Self)
        ensures
            loaded(repository, entries@, delegate@.files),
            delegate@ == (DelegateView {
                repository,
                files: delegate@.files,
                matches: Seq::empty(),
                rows: Seq::empty(),
                collapsed: Set::empty(),
                query_is_active: false,
                selected: 0,
                preview_layout: PreviewLayout::Hidden,
                preview_enabled: true,
                desk: CommitDesk {
                    committing: false,
                    pushing: false,
                    amend: false,
                    signoff: false,
                    skip_hooks: false,
                },
                filter: 0,
            }),
    {
        let mut delegate = IdeaGitDelegate {
            repository,
            entries: Vec::new(),
            matches: Vec::new(),
            rows: Vec::new(),
            collapsed_dirs: DirectorySet::new(),
            query_is_active: false,
            selected_index: 0,
            preview_layout: PreviewLayout::Hidden,
            preview_enabled: true,
            desk: CommitDesk::new(),
            filter: 0,
        };
        proof {
            assert(row_views(delegate.rows@) =~= Seq::<RowView>::empty());
        }
        delegate.reload_entries(entries);
        delegate
    }

    /// Lists the repository's changes, as its status now stands. Without a repository the list
    /// is empty. The rows follow once the list is filtered again.
    pub fn reload_entries(&mut self, entries: Vec<StatusEntry>)
        ensures
            loaded(old(self)@.repository, entries@, final(self)@.files),
            final(self)@ == (DelegateView { files: final(self)@.files, ..old(self)@ }),
    {
        self.entries = if self.repository.is_some() {
            changed_files(entries)
        } else {
            Vec::new()
        };
    }

    /// Arranges `matches` into `rows`: one tree holding tracked and untracked files together, so
    /// a directory containing both shows them side by side rather than twice under two headings.
    fn rebuild_rows(&mut self)
        ensures
            final(self)@ == old(self)@.rebuilt(),
    {
        let unfolded = DirectorySet::new();
        let folded = if self.query_is_active {
            &unfolded
        } else {
            &self.collapsed_dirs
        };
        self.rows = build_rows(&self.entries, &self.matches, true, folded);
        proof {
            assert(row_views(self.rows@).len() == self.rows@.len());
        }
        self.selected_index = clamp_index(self.selected_index, self.rows.len());
    }

    /// Filters the list by `query`, abandoning whatever filter is running. Without a query, every
    /// changed file is listed at once. With one, the files to match against it are returned, and
    /// the list changes once they have been.
    pub fn update_matches(&mut self, query: &str) -> (request: Option<FilterRequest>)
        ensures
            query@.len() == 0 ==> request is None && final(self)@ == old(self)@.unqueried(),
            query@.len() > 0 ==> request is Some && final(self)@ == old(self)@.queried(),
            request matches Some(request) ==> {
                &&& request.filter == final(self)@.filter
                &&& request.candidates@.len() == old(self)@.files.len()
                &&& forall|i: int|
                    0 <= i < request.candidates@.len() ==> (#[trigger] request.candidates@[i]).id
                        == i && request.candidates@[i].text@ == old(self)@.files[i].display_path@
            },
    {
        self.cancel_running_filter();
        self.query_is_active = !query.is_empty();
        if query.is_empty() {
            let count: usize = if self.entries.len() < MAX_MATCHES {
                self.entries.len()
            } else {
                MAX_MATCHES
            };
            self.matches = positions(count);
            self.selected_index = 0;
            self.rebuild_rows();
            return None;
        }
        let mut candidates: Vec<Candidate> = Vec::new();
        let mut i: usize = 0;
        while i < self.entries.len()
            invariant
                i <= self.entries.len(),
                candidates@.len() == i,
                forall|k: int|
                    0 <= k < i ==> (#[trigger] candidates@[k]).id == k && candidates@[k].text@
                        == self.entries@[k].display_path@,
            decreases self.entries.len() - i,
        {
            candidates.push(Candidate { id: i, text: self.entries[i].display_path.clone() });
            i += 1;
        }
        Some(FilterRequest { filter: self.filter, candidates })
    }

    /// Abandons whatever filter is running, as when the modal is closed.
    pub fn cancel_running_filter(&mut self)
        ensures
            final(self)@ == (DelegateView { filter: run_after(old(self)@.filter), ..old(self)@ }),
    {
        self.filter = next_run(self.filter);
    }

    /// The filter with the number `filter` has matched the files `matches`, best first. The best
    /// of them are listed, up to the bound. A filter that was abandoned meanwhile changes nothing.
    pub fn filter_finished(&mut self, filter: u64, matches: Vec<usize>)
        ensures
            final(self)@ == old(self)@.filtered(filter, matches@),
            old(self)@.matches.len() <= MAX_MATCHES ==> final(self)@.matches.len() <= MAX_MATCHES,
    {
        if filter != self.filter {
            return;
        }
        let mut matches = matches;
        if matches.len() > MAX_MATCHES {
            matches.truncate(MAX_MATCHES);
        }
        self.matches = matches;
        self.selected_index = 0;
        self.rebuild_rows();
    }

    /// Collapses or expands the selected directory. Does nothing while a query is active, where
    /// the tree is shown fully expanded regardless.
    pub fn toggle_selected_directory(&mut self)
        ensures
            final(self)@ == old(self)@.directory_toggled(),
    {
        if let Some(path) = directory_path(&self.rows, self.selected_index) {
            if self.query_is_active {
                return;
            }
            toggle_directory(&mut self.collapsed_dirs, path.as_str());
            self.rebuild_rows();
        }
    }

    /// Collapses every directory, or expands every directory when none are left expanded, so one
    /// button covers both directions.
    ///
    /// Only the directories currently shown are known here, so this walks until it settles. While
    /// a query is active the tree is shown fully expanded regardless, so there is nothing to
    /// collapse.
    pub fn toggle_all_directories(&mut self)
        ensures
            final(self)@ == old(self)@.all_toggled(),
            old(self)@.query_is_active && any_expanded(old(self)@.rows) ==> final(self)@ == old(
                self,
            )@,
            !old(self)@.query_is_active && any_expanded(old(self)@.rows) ==> !any_expanded(
                final(self)@.rows,
            ),
    {
        if any_directory_expanded(&self.rows) {
            if self.query_is_active {
                return;
            }
            collapse_expanded(&self.rows, &mut self.collapsed_dirs);
            self.rebuild_rows();
            if any_directory_expanded(&self.rows) {
                proof {
                    law_collapsing_what_is_shown_collapses_all(
                        display_paths(self.entries@),
                        self.matches@,
                        true,
                        self.collapsed_dirs@,
                    );
                }
                collapse_expanded(&self.rows, &mut self.collapsed_dirs);
                self.rebuild_rows();
            }
        } else {
            self.collapsed_dirs.clear();
            self.rebuild_rows();
        }
    }

    /// A single click on the file row at `index` selects it, a double click opens it. Returns the
    /// changed file to open, if any.
    pub fn click(&mut self, index: usize, clicks: usize) -> (open: Option<usize>)
        ensures
            final(self)@ == (DelegateView { selected: index as int, ..old(self)@ }),
            open == if clicks >= 2 {
                openable_at(old(self)@.rows, index as int, old(self)@.files)
            } else {
                None
            },
    {
        self.selected_index = index;
        if clicks >= 2 {
            self.open_selected()
        } else {
            None
        }
    }

    /// A click on the directory row at `index` selects it, and collapses or expands it.
    pub fn click_directory(&mut self, index: usize)
        ensures
            final(self)@ == (DelegateView {
                selected: index as int,
                ..old(self)@
            }).directory_toggled(),
    {
        self.selected_index = index;
        self.toggle_selected_directory();
    }

    /// Enter opens a file, and collapses or expands a directory.
    pub fn confirm(&mut self) -> (confirmed: Confirmed)
        ensures
            final(self)@ == old(self)@.directory_toggled(),
            confirmed == match directory_at(old(self)@.rows, old(self)@.selected) {
                Some(_) => Confirmed::Toggled,
                None => match openable_at(
                    old(self)@.rows,
                    old(self)@.selected,
                    old(self)@.files,
                ) {
                    Some(entry) => Confirmed::Open(entry),
                    None => Confirmed::Nothing,
                },
            },
    {
        if directory_path(&self.rows, self.selected_index).is_some() {
            self.toggle_selected_directory();
            Confirmed::Toggled
        } else {
            match self.open_selected() {
                Some(entry) => Confirmed::Open(entry),
                None => Confirmed::Nothing,
            }
        }
    }

    /// The changed file behind the selection, by position.
    pub fn selected_entry(&self) -> (entry: Option<usize>)
        ensures
            entry == file_at(self@.rows, self@.selected, self@.files.len()),
    {
        entry_at(&self.rows, self.selected_index, self.entries.len())
    }

    /// The changed file that opening the selection opens, by position.
    pub fn open_selected(&self) -> (entry: Option<usize>)
        ensures
            entry == openable_at(self@.rows, self@.selected, self@.files),
    {
        openable_entry(&self.rows, self.selected_index, &self.entries)
    }

    /// The changed file to preview, by position. There is no match to scroll to: the whole file
    /// is shown, from the top.
    pub fn preview_target(&self) -> (entry: Option<usize>)
        ensures
            entry == match file_at(self@.rows, self@.selected, self@.files.len()) {
                Some(entry) => if self@.files[entry as int].has_abs_path {
                    Some(entry)
                } else {
                    None
                },
                None => None,
            },
    {
        match self.selected_entry() {
            Some(entry) => if self.entries[entry].has_abs_path {
                Some(entry)
            } else {
                None
            },
            None => None,
        }
    }

    /// What pressing the checkbox of the row at `row` asks the repository for. Nothing happens
    /// without a repository.
    pub fn toggle_staged_for_row(&self, row: usize) -> (request: Option<StageRequest>)
        ensures
            request_view(request) == if self@.repository is Some {
                row_request(self@.rows, self@.files, row as int)
            } else {
                None
            },
    {
        if self.repository.is_some() {
            stage_request(&self.rows, &self.entries, row)
        } else {
            None
        }
    }

    /// What pressing the button that covers the whole repository asks for. Nothing happens
    /// without a repository.
    pub fn toggle_stage_all(&self) -> (action: Option<StageAll>)
        ensures
            action == if self@.repository is None {
                None
            } else if everything_staged(self@.files) {
                Some(StageAll::Unstage)
            } else {
                Some(StageAll::Stage)
            },
    {
        if self.repository.is_some() {
            Some(stage_all_action(&self.entries))
        } else {
            None
        }
    }

    /// Starts a commit with `typed` as its message, where one can start.
    pub fn commit(&mut self, typed: Option<&str>) -> (plan: Option<CommitPlan>)
        ensures
            plan is Some <==> old(self)@.repository is Some && message_in(typed_text(typed)) is Some
                && !old(self)@.desk.committing,
            final(self)@ == (DelegateView {
                desk: CommitDesk {
                    committing: old(self)@.desk.committing || plan is Some,
                    ..old(self)@.desk
                },
                ..old(self)@
            }),
            plan matches Some(plan) ==> {
                &&& message_in(typed_text(typed)) == Some(plan.message@)
                &&& optional_views(plan.stage_first) == paths_to_stage(old(self)@.files)
                &&& plan.options == old(self)@.desk.options()
                &&& plan.options.amend == old(self)@.desk.amend
                &&& plan.options.signoff == old(self)@.desk.signoff
                &&& plan.options.skip_hooks == old(self)@.desk.skip_hooks
                &&& !plan.options.allow_empty
                &&& typed is Some && plan.message@ == typed->0@
            },
    {
        self.desk.commit(self.repository.is_some(), typed, &self.entries)
    }

    /// The commit in flight has ended. Returns whether the message box is to be emptied.
    pub fn commit_finished(&mut self, succeeded: bool, has_editor: bool) -> (clear_message: bool)
        ensures
            final(self)@ == (DelegateView {
                desk: CommitDesk { committing: false, ..old(self)@.desk },
                ..old(self)@
            }),
            clear_message == (succeeded && has_editor),
    {
        self.desk.commit_finished(succeeded, has_editor)
    }

    /// Starts a push of `branch`, the one checked out, where one can start.
    pub fn push(&mut self, branch: Option<&Branch>) -> (plan: Option<PushPlan>)
        ensures
            plan is Some <==> old(self)@.repository is Some && branch is Some && !old(
                self,
            )@.desk.pushing,
            final(self)@ == (DelegateView {
                desk: CommitDesk {
                    pushing: old(self)@.desk.pushing || plan is Some,
                    ..old(self)@.desk
                },
                ..old(self)@
            }),
            plan matches Some(plan) ==> {
                &&& plan.branch_name@ == branch->0.name@
                &&& plan.set_upstream == needs_upstream(branch->0.upstream)
            },
    {
        if self.repository.is_none() {
            return None;
        }
        self.desk.push(branch)
    }

    /// The push in flight has ended.
    pub fn push_finished(&mut self)
        ensures
            final(self)@ == (DelegateView {
                desk: CommitDesk { pushing: false, ..old(self)@.desk },
                ..old(self)@
            }),
    {
        self.desk.push_finished();
    }

    /// Turns a commit option on or off.
    pub fn toggle_option(&mut self, option: CommitOption)
        ensures
            final(self)@ == (DelegateView { desk: old(self)@.desk.flipped(option), ..old(self)@ }),
    {
        self.desk.toggle(option);
    }

    /// The lines of the commit button's menu.
    pub fn commit_menu(&self, has_previous_commit: bool) -> (entries: Vec<MenuEntry>)
        ensures
            entries@ == self@.desk.menu(self@.repository is Some && has_previous_commit),
    {
        self.desk.commit_menu(self.repository.is_some() && has_previous_commit)
    }

    /// The commit section, with `typed` in the message box.
    pub fn render_footer(&self, typed: Option<&str>, has_branch: bool) -> (section: CommitSection)
        ensures
            section@ == commit_section_of(
                self@.desk,
                typed_text(typed),
                self@.repository is Some && has_branch,
                self@.files,
            ),
    {
        self.desk.commit_section(typed, self.repository.is_some() && has_branch, &self.entries)
    }

    /// What the row at `index` puts on screen.
    pub fn render_match(&self, index: usize) -> (display: Option<RowDisplay>)
        ensures
            displayed(self@.rows, self@.files, index as int) == match display {
                Some(display) => Some(display@),
                None => None,
            },
    {
        display_row(&self.rows, &self.entries, index)
    }

    /// Whether any directory is currently expanded, which decides what the collapse button does.
    pub fn any_directory_expanded(&self) -> (any: bool)
        ensures
            any == any_expanded(self@.rows),
    {
        any_directory_expanded(&self.rows)
    }

    /// Whether the lines added and removed across every changed file can be counted.
    pub fn can_total(&self) -> (fit: bool)
        ensures
            fit == totals_fit(self@.files),
    {
        diff_totals_fit(&self.entries)
    }

    /// Lines added and removed across every changed file. `None` when there are none.
    pub fn total_diff_stat(&self) -> (total: Option<DiffStat>)
        requires
            totals_fit(self@.files),
        ensures
            match total {
                Some(stat) => {
                    &&& stat.added == total_added(self@.files)
                    &&& stat.deleted == total_deleted(self@.files)
                    &&& stat.added + stat.deleted > 0
                },
                None => total_added(self@.files) == 0 && total_deleted(self@.files) == 0,
            },
    {
        total_diff_stat(&self.entries)
    }

    /// What an empty list says.
    pub fn no_matches_text(&self) -> (text: &'static str)
        ensures
            text@ == self@.empty_text(),
    {
        if self.repository.is_none() {
            "No git repository"
        } else if self.entries.len() == 0 {
            "No changes"
        } else {
            "No matching files"
        }
    }

    /// How deep each row at the positions `range` sits.
    pub fn visible_depths(&self, range: Range<usize>) -> (depths: Vec<usize>)
        ensures
            depths@.map_values(|depth: usize| depth as int) == rows_between(
                self@.rows,
                range.start as int,
                range.end as int,
            ).map_values(|row: RowView| row_depth(row)),
    {
        visible_depths(&self.rows, range)
    }

    pub fn match_count(&self) -> (count: usize)
        ensures
            count == self@.rows.len(),
    {
        proof {
            assert(row_views(self.rows@).len() == self.rows@.len());
        }
        self.rows.len()
    }

    pub fn selected_index(&self) -> (index: usize)
        ensures
            index == self@.selected,
    {
        self.selected_index
    }

    pub fn set_selected_index(&mut self, index: usize)
        ensures
            final(self)@ == (DelegateView { selected: index as int, ..old(self)@ }),
    {
        self.selected_index = index;
    }

    /// The picker reports its layout here, at construction and on every change.
    pub fn preview_layout_changed(&mut self, layout: PreviewLayout)
        ensures
            final(self)@ == (DelegateView { preview_layout: layout, ..old(self)@ }),
    {
        self.preview_layout = layout;
    }

    /// Asks for a preview, or for none.
    pub fn toggle_preview(&mut self)
        ensures
            final(self)@ == (DelegateView {
                preview_enabled: !old(self)@.preview_enabled,
                ..old(self)@
            }),
    {
        self.preview_enabled = !self.preview_enabled;
    }

    pub fn preview_enabled(&self) -> (enabled: bool)
        ensures
            enabled == self@.preview_enabled,
    {
        self.preview_enabled
    }

    /// The picker dismisses itself when its query input blurs. Focus that merely moved elsewhere
    /// in the modal, or to the commit button's menu, is no reason to.
    pub fn has_another_open_menu(focus_in_modal: bool, menu_deployed: bool) -> (open: bool)
        ensures
            open == (focus_in_modal || menu_deployed),
    {
        focus_in_modal || menu_deployed
    }

    /// The changed files.
    pub fn entries(&self) -> (entries: &Vec<ChangedFile>)
        ensures
            entries@ == self@.files,
    {
        &self.entries
    }

    /// The rows of the list.
    pub fn rows(&self) -> (rows: &Vec<Row>)
        ensures
            row_views(rows@) == self@.rows,
    {
        &self.rows
    }
}

pub struct IdeaGit {
    pub delegate: IdeaGitDelegate,
}

impl IdeaGit {
    pub fn new(repository: Option<u64>, entries: Vec<StatusEntry>) -> (modal: Self)
        ensures
            loaded(repository, entries@, modal.delegate@.files),
            modal.delegate@ == (DelegateView {
                repository,
                files: modal.delegate@.files,
                matches: Seq::empty(),
                rows: Seq::empty(),
                collapsed: Set::empty(),
                query_is_active: false,
                selected: 0,
                preview_layout: PreviewLayout::Hidden,
                preview_enabled: true,
                desk: CommitDesk {
                    committing: false,
                    pushing: false,
                    amend: false,
                    signoff: false,
                    skip_hooks: false,
                },
                filter: 0,
            }),
    {
        IdeaGit { delegate: IdeaGitDelegate::new(repository, entries) }
    }

    /// First escape empties the query, second closes the modal. Returns whether this one is to
    /// empty the query.
    pub fn cancel(query: &str) -> (empty_query: bool)
        ensures
            empty_query == (query@.len() > 0),
    {
        !query.is_empty()
    }

    /// The layout to ask the picker for, since it opens with the preview hidden. `None` where it
    /// has that layout already.
    ///
    /// Deliberately follows only the user's own preference, not whether there is anything to
    /// show: each layout carries its own persisted size, so flipping the layout as the list
    /// empties and refills would swap a dragged size out from under the user.
    pub fn sync_preview_layout(&self) -> (wanted: Option<PreviewLayout>)
        ensures
            ({
                let layout = if self.delegate@.preview_enabled {
                    PreviewLayout::Right
                } else {
                    PreviewLayout::Hidden
                };
                wanted == if self.delegate@.preview_layout == layout {
                    None
                } else {
                    Some(layout)
                }
            }),
    {
        let wanted = if self.delegate.preview_enabled {
            PreviewLayout::Right
        } else {
            PreviewLayout::Hidden
        };
        if self.delegate.preview_layout == wanted {
            None
        } else {
            Some(wanted)
        }
    }

    /// What the status bar says.
    pub fn summary(&self) -> (summary: String)
        ensures
            summary@ == self.delegate@.summary(),
    {
        let total = self.delegate.entries.len();
        if total == 0 {
            return "No changes".to_owned();
        }
        if !self.delegate.query_is_active {
            return decimal_text(total as u64).concat(" changed files");
        }
        decimal_text(self.delegate.match_count() as u64).concat(" of ").concat(
            decimal_text(total as u64).as_str(),
        ).concat(" changed files")
    }
}

} // verus!
