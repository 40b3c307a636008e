//! The diff pane: which file it shows, what it says while it shows none, and its header.

use vstd::prelude::*;

use crate::changes::{ProjectFile, ProjectPath};
use crate::runs::{next_run, run_after};
use crate::text::{contains_text, has_text};

verus! {

/// Opening a binary file fails with this. Matched on the message because the error arrives with
/// no variant to match on.
pub open spec fn names_binary_file(message: Seq<char>) -> bool {
    has_text(message, "Binary files are not supported"@)
}

/// Whether a failure to open a file means that the file is a binary one.
pub fn is_binary_error(message: &str) -> (binary: bool)
    ensures
        binary == names_binary_file(message@),
{
    contains_text(message, "Binary files are not supported")
}

/// An optional text, as a value.
pub open spec fn optional_text(text: Option<String>) -> Option<Seq<char>> {
    match text {
        Some(text) => Some(text@),
        None => None,
    }
}

/// A copy of an optional text.
pub fn copy_text(text: &Option<String>) -> (copy: Option<String>)
    ensures
        optional_text(copy) == optional_text(*text),
{
    match text {
        Some(text) => Some(text.clone()),
        None => None,
    }
}

/// A file of an open project, as a value: its worktree, and its path in there.
pub struct PathView {
    pub worktree_id: u64,
    pub path: Seq<char>,
}

impl View for ProjectPath {
    type V = PathView;

    open spec fn view(&self) -> PathView {
        PathView { worktree_id: self.worktree_id, path: self.path@ }
    }
}

impl ProjectPath {
    /// Another value for the same file.
    pub fn duplicate(&self) -> (copy: Self)
        ensures
            copy@ == self@,
    {
        ProjectPath { worktree_id: self.worktree_id, path: self.path.clone() }
    }

    /// Whether both stand for the same file.
    pub fn same_as(&self, other: &ProjectPath) -> (same: bool)
        ensures
            same == (self@ == other@),
    {
        let same = self.worktree_id == other.worktree_id && self.path == other.path;
        proof {
            if same {
                assert(self@ == other@);
            } else if self@ == other@ {
                assert(self.path@ == other.path@);
            }
        }
        same
    }
}

/// How a header writes the directory that holds a file. Worktree-relative, so "./" rather than a
/// leading slash. A file at the root has no parent and shows as "./" alone.
pub open spec fn directory_label(parent: Option<Seq<char>>) -> Seq<char> {
    match parent {
        Some(parent) => "./"@ + parent,
        None => "./"@,
    }
}

/// How a header writes the directory that holds a file.
pub fn directory_text(parent: &Option<String>) -> (text: String)
    ensures
        text@ == directory_label(optional_text(*parent)),
{
    match parent {
        Some(parent) => "./".to_owned().concat(parent.as_str()),
        None => "./".to_owned(),
    }
}

/// What the diff pane has to be told after the selection has moved.
#[derive(Clone, Copy, Debug, PartialEq, Eq, Structural)]
pub enum PreviewTask {
    /// Load the diff of the file that the pane is now at, and report back under this number.
    Load(u64),
    /// Drop whatever it shows.
    Clear,
    /// Leave it as it is.
    Keep,
}

/// The diff of one file, shown whole rather than as a list of hunks.
pub struct DiffPreview {
    /// What the pane currently shows, so re-selecting the same row does no work.
    current_path: Option<ProjectPath>,
    /// Shown instead of the diff: either nothing is selected, or its diff failed to load.
    message: Option<String>,
    /// The file name in the header, kept beside the path so the header can render before the
    /// diff finishes loading.
    title: Option<String>,
    /// The directory holding it, shown after the name.
    subtitle: Option<String>,
    /// Whether stepping between changes means anything here. A newly added file is a single
    /// block of additions, so the buttons would move nowhere.
    has_hunks_to_step_through: bool,
    /// The number of the last load. Only one counts at a time; turning the pane to another file
    /// overtakes the one before.
    load: u64,
}

/// The diff pane, as a value.
pub struct PreviewView {
    pub current_path: Option<PathView>,
    pub message: Option<Seq<char>>,
    pub title: Option<Seq<char>>,
    pub subtitle: Option<Seq<char>>,
    pub has_hunks: bool,
    pub load: u64,
}

impl View for DiffPreview {
    type V = PreviewView;

    closed spec fn view(&self) -> PreviewView {
        PreviewView {
            current_path: match self.current_path {
                Some(path) => Some(path@),
                None => None,
            },
            message: optional_text(self.message),
            title: optional_text(self.title),
            subtitle: optional_text(self.subtitle),
            has_hunks: self.has_hunks_to_step_through,
            load: self.load,
        }
    }
}

impl PreviewView {
    /// A pane with nothing selected, whose last load had the number `load`.
    pub open spec fn blank(load: u64) -> PreviewView {
        PreviewView {
            current_path: None,
            message: Some("Select a file to see its diff"@),
            title: None,
            subtitle: None,
            has_hunks: false,
            load,
        }
    }

    /// The pane with nothing selected, and whatever was loading overtaken.
    pub open spec fn cleared(self) -> PreviewView {
        PreviewView::blank(run_after(self.load))
    }

    /// The pane after the load with the number `load` went through. An overtaken one changes
    /// nothing.
    pub open spec fn loaded(self, load: u64) -> PreviewView {
        if load == self.load {
            PreviewView { message: None, ..self }
        } else {
            self
        }
    }

    /// The pane after the load with the number `load` failed with `error`. An overtaken one
    /// changes nothing.
    pub open spec fn failed(self, load: u64, error: Seq<char>) -> PreviewView {
        if load == self.load {
            PreviewView {
                message: Some(
                    if names_binary_file(error) {
                        "Binary file"@
                    } else {
                        "Could not load this file's diff"@
                    },
                ),
                ..self
            }
        } else {
            self
        }
    }

    /// Whether the pane is at `file` already.
    pub open spec fn is_at(self, file: ProjectFile) -> bool {
        self.current_path == Some(file.path@)
    }

    /// The pane turned to `file`, whose diff is yet to load. Until it has, the pane says what it
    /// said before.
    pub open spec fn turned_to(self, file: ProjectFile, has_hunks: bool) -> PreviewView {
        if self.is_at(file) {
            self
        } else {
            PreviewView {
                current_path: Some(file.path@),
                message: self.message,
                title: optional_text(file.file_name),
                subtitle: Some(directory_label(optional_text(file.parent))),
                has_hunks,
                load: run_after(self.load),
            }
        }
    }

    /// Whether the header offers to step between changes.
    pub open spec fn steppable(self) -> bool {
        self.message is None && self.has_hunks
    }

    /// What the header calls the file.
    pub open spec fn heading(self) -> Seq<char> {
        match self.title {
            Some(title) => title,
            None => "Diff"@,
        }
    }
}

impl DiffPreview {
    /// A pane with nothing selected.
    pub fn new() -> (preview: Self)
        ensures
            preview@ == PreviewView::blank(0),
    {
        DiffPreview {
            current_path: None,
            message: Some("Select a file to see its diff".to_owned()),
            title: None,
            subtitle: None,
            has_hunks_to_step_through: false,
            load: 0,
        }
    }

    /// Turns the pane to `file`. Returns the number to load its diff under. There is nothing to
    /// load where the pane is at that file already.
    pub fn show(&mut self, file: &ProjectFile, has_hunks: bool) -> (load: Option<u64>)
        ensures
            final(self)@ == old(self)@.turned_to(*file, has_hunks),
            load == if old(self)@.is_at(*file) {
                None
            } else {
                Some(final(self)@.load)
            },
            final(self)@.current_path == Some(file.path@),
            load is None <==> old(self)@.current_path == Some(file.path@),
            load is None ==> final(self)@ == old(self)@,
            load is Some ==> final(self)@.title == optional_text(file.file_name),
            load is Some ==> final(self)@.has_hunks == has_hunks,
    {
        let at_file = match &self.current_path {
            Some(path) => path.same_as(&file.path),
            None => false,
        };
        if at_file {
            return None;
        }
        self.current_path = Some(file.path.duplicate());
        self.has_hunks_to_step_through = has_hunks;
        self.title = copy_text(&file.file_name);
        self.subtitle = Some(directory_text(&file.parent));
        self.load = next_run(self.load);
        Some(self.load)
    }

    /// Turns the pane to whatever is to be previewed, or leaves it with nothing selected where
    /// that is no file of the project. Returns what has to be done for that.
    pub fn follow(&mut self, file: Option<&ProjectFile>, has_hunks: bool) -> (task: PreviewTask)
        ensures
            match file {
                Some(file) => {
                    &&& final(self)@ == old(self)@.turned_to(*file, has_hunks)
                    &&& task == if old(self)@.is_at(*file) {
                        PreviewTask::Keep
                    } else {
                        PreviewTask::Load(final(self)@.load)
                    }
                },
                None => final(self)@ == old(self)@.cleared() && task == PreviewTask::Clear,
            },
    {
        match file {
            Some(file) => {
                match self.show(file, has_hunks) {
                    Some(load) => PreviewTask::Load(load),
                    None => PreviewTask::Keep,
                }
            },
            None => {
                self.clear();
                PreviewTask::Clear
            },
        }
    }

    /// The diff has loaded under the number `load`, and is what the pane shows from now on. Where
    /// that load has been overtaken, nothing changes. Returns whether the diff is to be shown.
    pub fn load_finished(&mut self, load: u64) -> (shown: bool)
        ensures
            final(self)@ == old(self)@.loaded(load),
            shown == (load == old(self)@.load),
    {
        if load != self.load {
            return false;
        }
        self.message = None;
        true
    }

    /// The diff failed to load under the number `load`. A binary file is not a failure to explain
    /// away: git has nothing to diff, so the pane says that rather than implying something went
    /// wrong. Where that load has been overtaken, nothing changes.
    pub fn load_failed(&mut self, load: u64, error: &str)
        ensures
            final(self)@ == old(self)@.failed(load, error@),
    {
        if load != self.load {
            return;
        }
        self.message = Some(
            if is_binary_error(error) {
                "Binary file".to_owned()
            } else {
                "Could not load this file's diff".to_owned()
            },
        );
    }

    /// Leaves the pane with nothing selected, and whatever was loading overtaken.
    pub fn clear(&mut self)
        ensures
            final(self)@ == old(self)@.cleared(),
    {
        self.load = next_run(self.load);
        self.current_path = None;
        self.title = None;
        self.subtitle = None;
        self.has_hunks_to_step_through = false;
        self.message = Some("Select a file to see its diff".to_owned());
    }

    /// What the pane shows in place of a diff, if anything.
    pub fn message(&self) -> (message: Option<&String>)
        ensures
            self@.message == match message {
                Some(message) => Some(message@),
                None => None,
            },
    {
        match &self.message {
            Some(message) => Some(message),
            None => None,
        }
    }

    /// The directory that the header shows, if any.
    pub fn subtitle(&self) -> (subtitle: Option<&String>)
        ensures
            self@.subtitle == match subtitle {
                Some(subtitle) => Some(subtitle@),
                None => None,
            },
    {
        match &self.subtitle {
            Some(subtitle) => Some(subtitle),
            None => None,
        }
    }

    /// What the header calls the file.
    pub fn title(&self) -> (title: String)
        ensures
            title@ == self@.heading(),
    {
        match &self.title {
            Some(title) => title.clone(),
            None => "Diff".to_owned(),
        }
    }

    /// Whether the header offers to step between changes.
    pub fn steppable(&self) -> (steppable: bool)
        ensures
            steppable == self@.steppable(),
    {
        self.message.is_none() && self.has_hunks_to_step_through
    }
}

/// Turning the pane to a file a second time changes nothing and loads nothing.
pub proof fn law_showing_again_does_no_work(preview: PreviewView, file: ProjectFile, has_hunks: bool)
    ensures
        preview.turned_to(file, has_hunks).is_at(file),
        preview.turned_to(file, has_hunks).turned_to(file, has_hunks) == preview.turned_to(
            file,
            has_hunks,
        ),
{
}

/// Only the last load counts: once the pane has been turned to another file or cleared, what
/// becomes of an earlier load changes nothing, whether it went through or failed.
pub proof fn law_overtaken_load_changes_nothing(
    preview: PreviewView,
    other: ProjectFile,
    has_hunks: bool,
    error: Seq<char>,
)
    requires
        !preview.is_at(other),
    ensures
        ({
            let now = preview.turned_to(other, has_hunks);
            now.loaded(preview.load) == now && now.failed(preview.load, error) == now
        }),
        preview.cleared().loaded(preview.load) == preview.cleared(),
        preview.cleared().failed(preview.load, error) == preview.cleared(),
{
}

/// There is nothing to step through while the pane has no diff to show.
pub proof fn law_message_hides_navigation(preview: PreviewView)
    requires
        preview.message is Some,
    ensures
        !preview.steppable(),
{
}

/// After the pane has been turned to a file it is at that file's own path: the same worktree, and
/// the same path in it. Only where it was at exactly that path before is there nothing to load and
/// nothing changes. Otherwise its header takes the file's own name and directory, it counts a new
/// load, and goes on saying what it said before.
pub proof fn law_pane_turns_to_the_file(preview: PreviewView, file: ProjectFile, has_hunks: bool)
    ensures
        ({
            let after = preview.turned_to(file, has_hunks);
            let there = preview.current_path is Some && preview.current_path->0.worktree_id
                == file.path.worktree_id && preview.current_path->0.path == file.path.path@;
            &&& preview.is_at(file) <==> there
            &&& after.current_path is Some
            &&& after.current_path->0.worktree_id == file.path.worktree_id
            &&& after.current_path->0.path == file.path.path@
            &&& there ==> after == preview
            &&& !there ==> {
                &&& after.load != preview.load
                &&& after.has_hunks == has_hunks
                &&& after.message == preview.message
                &&& after.title is Some <==> file.file_name is Some
                &&& file.file_name matches Some(name) ==> after.title == Some(name@)
                &&& after.subtitle is Some
                &&& file.parent matches Some(parent) ==> after.subtitle == Some("./"@ + parent@)
                &&& file.parent is None ==> after.subtitle == Some("./"@)
            }
        }),
{
}

/// A pane turned from one file to another shows the second one's header, whatever the two have in
/// common, and a load for the first one no longer counts.
pub proof fn law_turning_from_file_to_file(
    preview: PreviewView,
    first: ProjectFile,
    second: ProjectFile,
    has_hunks: bool,
)
    requires
        first.path.worktree_id != second.path.worktree_id || first.path.path@
            != second.path.path@,
    ensures
        ({
            let before = preview.turned_to(first, has_hunks);
            let after = before.turned_to(second, has_hunks);
            &&& after.current_path != before.current_path
            &&& after.load != before.load
            &&& after.title == optional_text(second.file_name)
            &&& after.loaded(before.load) == after
            &&& after.loaded(after.load).message is None
        }),
{
    law_pane_turns_to_the_file(preview, first, has_hunks);
}

/// A cleared pane is at no file, asks for one to be selected, has no header of its own and nothing
/// to step through, and no longer waits for what was loading.
pub proof fn law_cleared_pane_is_at_no_file(preview: PreviewView, load: u64)
    ensures
        ({
            let after = preview.cleared();
            &&& after.current_path is None
            &&& after.message == Some("Select a file to see its diff"@)
            &&& after.title is None
            &&& after.subtitle is None
            &&& !after.has_hunks
            &&& after.load != preview.load
            &&& PreviewView::blank(load) == PreviewView { load, ..after }
        }),
{
}

/// The load that counts decides what the pane says, and nothing else: once it has gone through
/// nothing stands in the diff's place, and once it has failed a text does, which is about binary
/// files exactly where the error is.
pub proof fn law_load_decides_the_message(preview: PreviewView, load: u64, error: Seq<char>)
    ensures
        preview.loaded(preview.load) == (PreviewView { message: None, ..preview }),
        preview.failed(preview.load, error) == (PreviewView {
            message: preview.failed(preview.load, error).message,
            ..preview
        }),
        (exists|at: int|
            0 <= at && at + "Binary files are not supported"@.len() <= error.len()
                && #[trigger] error.subrange(at, at + "Binary files are not supported"@.len())
                == "Binary files are not supported"@) ==> preview.failed(
            preview.load,
            error,
        ).message == Some("Binary file"@),
        !(exists|at: int|
            0 <= at && at + "Binary files are not supported"@.len() <= error.len()
                && #[trigger] error.subrange(at, at + "Binary files are not supported"@.len())
                == "Binary files are not supported"@) ==> preview.failed(
            preview.load,
            error,
        ).message == Some("Could not load this file's diff"@),
        load != preview.load ==> preview.loaded(load) == preview && preview.failed(load, error)
            == preview,
{
    let needle = "Binary files are not supported"@;
    if exists|at: int|
        0 <= at && at + needle.len() <= error.len() && #[trigger] error.subrange(
            at,
            at + needle.len(),
        ) == needle {
        let at = choose|at: int|
            0 <= at && at + needle.len() <= error.len() && #[trigger] error.subrange(
                at,
                at + needle.len(),
            ) == needle;
        assert(crate::text::stands_at(error, needle, at));
    }
    if names_binary_file(error) {
        let at = choose|at: int| crate::text::stands_at(error, needle, at);
        assert(error.subrange(at, at + needle.len()) == needle);
    }
}

/// The header goes by the file's name, or by "Diff" where there is none, and offers to step
/// between changes exactly while a diff with changes to step between is shown.
pub proof fn law_header_tells_the_file(preview: PreviewView)
    ensures
        preview.title matches Some(title) ==> preview.heading() == title,
        preview.title is None ==> preview.heading() == "Diff"@,
        preview.steppable() <==> preview.has_hunks && preview.message is None,
{
}

/// A file of a project is told by its worktree and its path in there, and by both. A text, or the
/// lack of one, is taken as it is.
pub proof fn law_project_path_as_a_value(a: ProjectPath, b: ProjectPath, text: String)
    ensures
        a@.worktree_id == a.worktree_id,
        a@.path == a.path@,
        a@ == b@ <==> a.worktree_id == b.worktree_id && a.path@ == b.path@,
        optional_text(Some(text)) == Some(text@),
        optional_text(None) is None,
{
}

/// A directory is written from its worktree: "./", and whatever it is called behind that.
pub proof fn law_directory_is_written_from_the_worktree(parent: Seq<char>)
    ensures
        directory_label(None) == "./"@,
        directory_label(Some(parent)).len() == 2 + parent.len(),
        directory_label(Some(parent)).take(2) == "./"@,
        directory_label(Some(parent)).skip(2) == parent,
{
    reveal_strlit("./");
    assert(directory_label(Some(parent)).take(2) =~= "./"@);
    assert(directory_label(Some(parent)).skip(2) =~= parent);
}

} // verus!
