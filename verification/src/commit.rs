//! Committing and pushing: when each may start, what it is started with, and what the commit
//! section shows meanwhile.

use vstd::prelude::*;

use crate::changes::{
    any_staged, everything_staged, has_staged_changes, staged_among, staged_count, string_views,
    tracked_paths, tracked_repo_paths, ChangedFile, StageStatus,
};
use crate::text::{all_white, decimal, decimal_text, is_blank};

verus! {

/// What git is told about a commit.
#[derive(Clone, Copy, Debug, PartialEq, Eq, Structural)]
pub struct CommitOptions {
    pub amend: bool,
    pub signoff: bool,
    pub allow_empty: bool,
    pub skip_hooks: bool,
}

/// The options that the commit button's menu offers.
#[derive(Clone, Copy, Debug, PartialEq, Eq, Structural)]
pub enum CommitOption {
    Amend,
    Signoff,
    SkipHooks,
}

impl CommitOption {
    /// What the menu calls the option.
    pub open spec fn name(self) -> Seq<char> {
        match self {
            CommitOption::Amend => "Amend"@,
            CommitOption::Signoff => "Signoff"@,
            CommitOption::SkipHooks => "Skip hooks"@,
        }
    }

    /// What the menu calls the option.
    pub fn label(&self) -> (label: &'static str)
        ensures
            label@ == self.name(),
    {
        match self {
            CommitOption::Amend => "Amend",
            CommitOption::Signoff => "Signoff",
            CommitOption::SkipHooks => "Skip hooks",
        }
    }
}

/// A line of the commit button's menu.
#[derive(Clone, Copy, Debug, PartialEq, Eq, Structural)]
pub struct MenuEntry {
    pub option: CommitOption,
    /// Whether the line carries a check mark.
    pub checked: bool,
}

/// What is in flight, and how the next commit will be made.
#[derive(Clone, Copy, Debug, PartialEq, Eq, Structural)]
pub struct CommitDesk {
    /// Set while a commit is in flight, so the button cannot be pressed twice.
    pub committing: bool,
    /// Set while a push is in flight.
    pub pushing: bool,
    /// The commit options, all off by default and toggled from the commit button's menu.
    pub amend: bool,
    pub signoff: bool,
    pub skip_hooks: bool,
}

/// A commit to make.
pub struct CommitPlan {
    pub message: String,
    /// Repository paths to stage before committing, where there are any.
    pub stage_first: Option<Vec<String>>,
    pub options: CommitOptions,
}

/// Where a branch stands to the one it follows on a remote.
#[derive(Clone, Copy, Debug, PartialEq, Eq, Structural)]
pub enum Upstream {
    Present,
    /// The remote no longer has it.
    Gone,
}

/// The branch that is checked out.
pub struct Branch {
    pub name: String,
    pub upstream: Option<Upstream>,
}

/// A push to make.
pub struct PushPlan {
    pub branch_name: String,
    pub set_upstream: bool,
}

/// How an editor takes up room.
#[derive(Clone, Copy, Debug, PartialEq, Eq, Structural)]
pub enum EditorMode {
    SingleLine,
    AutoHeight { min_lines: usize, max_lines: Option<usize> },
}

/// How many rows the git window's commit box holds.
pub const COMMIT_LINES: usize = 5;

/// How tall the git modal's commit message editor is, in lines.
pub const COMMIT_EDITOR_LINES: usize = 3;

/// An editor of exactly `lines` rows.
///
/// One row is `SingleLine` rather than a one-row `AutoHeight`, which would still accept newlines
/// and scroll them out of sight. `SingleLine` refuses them at the editor.
pub fn commit_editor_mode(lines: usize) -> (mode: EditorMode)
    ensures
        mode == if lines <= 1 {
            EditorMode::SingleLine
        } else {
            EditorMode::AutoHeight { min_lines: lines, max_lines: Some(lines) }
        },
{
    if lines <= 1 {
        EditorMode::SingleLine
    } else {
        EditorMode::AutoHeight { min_lines: lines, max_lines: Some(lines) }
    }
}

/// The message that a commit would carry: what was typed, unless that is nothing but whitespace.
pub open spec fn message_in(typed: Option<Seq<char>>) -> Option<Seq<char>> {
    match typed {
        Some(text) => if all_white(text) {
            None
        } else {
            Some(text)
        },
        None => None,
    }
}

/// What an editor holds, as a value.
pub open spec fn typed_text(typed: Option<&str>) -> Option<Seq<char>> {
    match typed {
        Some(text) => Some(text@),
        None => None,
    }
}

/// The message as typed. `None` when the editor has not opened yet or holds only whitespace,
/// which is also what disables the commit button.
pub fn commit_message(typed: Option<&str>) -> (message: Option<String>)
    ensures
        match message {
            Some(message) => message_in(typed_text(typed)) == Some(message@),
            None => message_in(typed_text(typed)) is None,
        },
{
    match typed {
        Some(text) => if is_blank(text) {
            None
        } else {
            Some(text.to_owned())
        },
        None => None,
    }
}

/// The repository paths that have to be staged for a commit to contain anything: with nothing
/// staged, the tracked changes. `None` where there is nothing to stage first.
pub open spec fn paths_to_stage(files: Seq<ChangedFile>) -> Option<Seq<Seq<char>>> {
    if any_staged(files) || tracked_paths(files).len() == 0 {
        None
    } else {
        Some(tracked_paths(files))
    }
}

/// Lists of strings, or the lack of one, as a value.
pub open spec fn optional_views(strings: Option<Vec<String>>) -> Option<Seq<Seq<char>>> {
    match strings {
        Some(strings) => Some(string_views(strings@)),
        None => None,
    }
}

/// The repository paths to stage before committing `files`.
pub fn unstaged_tracked(files: &Vec<ChangedFile>) -> (paths: Option<Vec<String>>)
    ensures
        optional_views(paths) == paths_to_stage(files@),
{
    if has_staged_changes(files) {
        return None;
    }
    let paths = tracked_repo_paths(files);
    proof {
        assert(string_views(paths@).len() == paths@.len());
    }
    if paths.is_empty() {
        None
    } else {
        Some(paths)
    }
}

/// Only the tracked files' paths are staged first.
proof fn lemma_tracked_paths(files: Seq<ChangedFile>, path: Seq<char>)
    requires
        tracked_paths(files).contains(path),
    ensures
        exists|i: int|
            0 <= i < files.len() && !files[i].status.untracked && #[trigger] files[i].repo_path@
                == path,
    decreases files.len(),
{
    if files.len() > 0 {
        let front = files.drop_last();
        let k = choose|k: int|
            0 <= k < tracked_paths(files).len() && tracked_paths(files)[k] == path;
        if !files.last().status.untracked && k == tracked_paths(files).len() - 1 {
            assert(files[files.len() - 1].repo_path@ == path);
        } else {
            assert(tracked_paths(front)[k] == path);
            lemma_tracked_paths(front, path);
            let i = choose|i: int|
                0 <= i < front.len() && !front[i].status.untracked
                    && #[trigger] front[i].repo_path@ == path;
            assert(files[i].repo_path@ == path);
        }
    }
}

/// Untracked files are never swept into a commit: whatever is staged ahead of one is the path of
/// a file that git already tracks.
pub proof fn law_commit_never_stages_untracked_files(files: Seq<ChangedFile>, path: Seq<char>)
    requires
        paths_to_stage(files) is Some,
        paths_to_stage(files)->0.contains(path),
    ensures
        exists|i: int|
            0 <= i < files.len() && !files[i].status.untracked && #[trigger] files[i].repo_path@
                == path,
{
    lemma_tracked_paths(files, path);
}

/// A commit of staged changes stages nothing more, and one with nothing staged takes in every
/// tracked change.
pub proof fn law_commit_takes_in_tracked_changes(files: Seq<ChangedFile>, i: int)
    requires
        0 <= i < files.len(),
        !files[i].status.untracked,
    ensures
        any_staged(files) ==> paths_to_stage(files) is None,
        !any_staged(files) ==> paths_to_stage(files) is Some && paths_to_stage(files)->0.contains(
            files[i].repo_path@,
        ),
{
    lemma_tracked_listed(files, i);
}

proof fn lemma_tracked_listed(files: Seq<ChangedFile>, i: int)
    requires
        0 <= i < files.len(),
        !files[i].status.untracked,
    ensures
        tracked_paths(files).contains(files[i].repo_path@),
    decreases files.len(),
{
    let paths = tracked_paths(files);
    if i == files.len() - 1 {
        assert(paths[paths.len() - 1] == files[i].repo_path@);
    } else {
        let front = files.drop_last();
        assert(front[i] == files[i]);
        lemma_tracked_listed(front, i);
        let k = choose|k: int|
            0 <= k < tracked_paths(front).len() && tracked_paths(front)[k] == files[i].repo_path@;
        assert(paths[k] == files[i].repo_path@);
    }
}

/// What is said when a branch has nowhere to go.
pub fn no_remote_message() -> (message: &'static str)
    ensures
        message@ == "no remote to push to; add one to publish this branch"@,
{
    "no remote to push to; add one to publish this branch"
}

/// The remote to push to: the first one that carries the branch. With none there is nothing to
/// push to, and the error says so.
pub fn first_remote(remotes: Vec<String>) -> (remote: Result<String, String>)
    ensures
        match remote {
            Ok(name) => remotes@.len() > 0 && name@ == remotes@[0]@,
            Err(message) => remotes@.len() == 0 && message@
                == "no remote to push to; add one to publish this branch"@,
        },
{
    if remotes.len() == 0 {
        Err(no_remote_message().to_owned())
    } else {
        Ok(remotes[0].clone())
    }
}

/// Whether a push has to set the branch's upstream: there is none, or it is gone.
pub open spec fn needs_upstream(upstream: Option<Upstream>) -> bool {
    upstream != Some(Upstream::Present)
}

impl CommitDesk {
    /// Nothing in flight, and every option off.
    pub fn new() -> (desk: Self)
        ensures
            desk == (CommitDesk {
                committing: false,
                pushing: false,
                amend: false,
                signoff: false,
                skip_hooks: false,
            }),
    {
        CommitDesk {
            committing: false,
            pushing: false,
            amend: false,
            signoff: false,
            skip_hooks: false,
        }
    }

    /// What the next commit would be made with.
    pub open spec fn options(self) -> CommitOptions {
        CommitOptions {
            amend: self.amend,
            signoff: self.signoff,
            allow_empty: false,
            skip_hooks: self.skip_hooks,
        }
    }

    /// Commits what is staged. With nothing staged, git would commit nothing at all, so the
    /// tracked changes are staged first. Untracked files are never swept in.
    ///
    /// Returns the commit to make, and counts it as in flight. There is none to make without a
    /// repository or a message, nor while another one is in flight.
    pub fn commit(
        &mut self,
        has_repository: bool,
        typed: Option<&str>,
        files: &Vec<ChangedFile>,
    ) -> (plan: Option<CommitPlan>)
        ensures
            plan is Some <==> has_repository && message_in(typed_text(typed)) is Some
                && !old(self).committing,
            plan is None ==> *final(self) == *old(self),
            plan is Some ==> *final(self) == (CommitDesk { committing: true, ..*old(self) }),
            plan matches Some(plan) ==> {
                &&& message_in(typed_text(typed)) == Some(plan.message@)
                &&& optional_views(plan.stage_first) == paths_to_stage(files@)
                &&& plan.options == old(self).options()
                &&& plan.options.amend == old(self).amend
                &&& plan.options.signoff == old(self).signoff
                &&& plan.options.skip_hooks == old(self).skip_hooks
                &&& !plan.options.allow_empty
                &&& typed is Some && plan.message@ == typed->0@
            },
    {
        if !has_repository || self.committing {
            return None;
        }
        match commit_message(typed) {
            None => None,
            Some(message) => {
                let stage_first = unstaged_tracked(files);
                let options = CommitOptions {
                    amend: self.amend,
                    signoff: self.signoff,
                    allow_empty: false,
                    skip_hooks: self.skip_hooks,
                };
                self.committing = true;
                Some(CommitPlan { message, stage_first, options })
            },
        }
    }

    /// The commit in flight has ended, however it did. Returns whether the message box is to be
    /// emptied, which a commit that did not go through leaves alone.
    pub fn commit_finished(&mut self, succeeded: bool, has_editor: bool) -> (clear_message: bool)
        ensures
            *final(self) == (CommitDesk { committing: false, ..*old(self) }),
            clear_message == (succeeded && has_editor),
    {
        self.committing = false;
        succeeded && has_editor
    }

    /// Pushes the current branch, setting the upstream when there is none.
    ///
    /// Returns the push to make, and counts it as in flight. There is none to make without a
    /// branch checked out, nor while another one is in flight.
    pub fn push(&mut self, branch: Option<&Branch>) -> (plan: Option<PushPlan>)
        ensures
            plan is Some <==> branch is Some && !old(self).pushing,
            plan is None ==> *final(self) == *old(self),
            plan is Some ==> *final(self) == (CommitDesk { pushing: true, ..*old(self) }),
            plan matches Some(plan) ==> {
                &&& plan.branch_name@ == branch->0.name@
                &&& plan.set_upstream == needs_upstream(branch->0.upstream)
                &&& plan.set_upstream <==> branch->0.upstream != Some(Upstream::Present)
            },
    {
        match branch {
            None => None,
            Some(branch) => {
                if self.pushing {
                    return None;
                }
                let set_upstream = match branch.upstream {
                    Some(Upstream::Present) => false,
                    Some(Upstream::Gone) => true,
                    None => true,
                };
                self.pushing = true;
                Some(PushPlan { branch_name: branch.name.clone(), set_upstream })
            },
        }
    }

    /// The push in flight has ended, however it did.
    pub fn push_finished(&mut self)
        ensures
            *final(self) == (CommitDesk { pushing: false, ..*old(self) }),
    {
        self.pushing = false;
    }

    /// What the desk has set for `option`.
    pub open spec fn has(self, option: CommitOption) -> bool {
        match option {
            CommitOption::Amend => self.amend,
            CommitOption::Signoff => self.signoff,
            CommitOption::SkipHooks => self.skip_hooks,
        }
    }

    /// The desk with `option` the other way round.
    pub open spec fn flipped(self, option: CommitOption) -> CommitDesk {
        match option {
            CommitOption::Amend => CommitDesk { amend: !self.amend, ..self },
            CommitOption::Signoff => CommitDesk { signoff: !self.signoff, ..self },
            CommitOption::SkipHooks => CommitDesk { skip_hooks: !self.skip_hooks, ..self },
        }
    }

    /// Turns an option on or off.
    pub fn toggle(&mut self, option: CommitOption)
        ensures
            *final(self) == old(self).flipped(option),
            final(self).amend == (old(self).amend != (option == CommitOption::Amend)),
            final(self).signoff == (old(self).signoff != (option == CommitOption::Signoff)),
            final(self).skip_hooks == (old(self).skip_hooks != (option
                == CommitOption::SkipHooks)),
            final(self).committing == old(self).committing,
            final(self).pushing == old(self).pushing,
    {
        match option {
            CommitOption::Amend => {
                self.amend = !self.amend;
            },
            CommitOption::Signoff => {
                self.signoff = !self.signoff;
            },
            CommitOption::SkipHooks => {
                self.skip_hooks = !self.skip_hooks;
            },
        }
    }

    /// The lines of the commit button's menu. There is nothing to amend before the first commit.
    pub open spec fn menu(self, has_previous_commit: bool) -> Seq<MenuEntry> {
        let always = seq![
            MenuEntry { option: CommitOption::Signoff, checked: self.signoff },
            MenuEntry { option: CommitOption::SkipHooks, checked: self.skip_hooks },
        ];
        if has_previous_commit {
            seq![MenuEntry { option: CommitOption::Amend, checked: self.amend }] + always
        } else {
            always
        }
    }

    /// The lines of the commit button's menu. There is nothing to amend before the first commit.
    pub fn commit_menu(&self, has_previous_commit: bool) -> (entries: Vec<MenuEntry>)
        ensures
            entries@ == self.menu(has_previous_commit),
            forall|i: int|
                0 <= i < entries@.len() ==> (#[trigger] entries@[i]).checked == match entries@[
                i].option {
                    CommitOption::Amend => self.amend,
                    CommitOption::Signoff => self.signoff,
                    CommitOption::SkipHooks => self.skip_hooks,
                },
    {
        let mut entries: Vec<MenuEntry> = Vec::new();
        if has_previous_commit {
            entries.push(MenuEntry { option: CommitOption::Amend, checked: self.amend });
        }
        entries.push(MenuEntry { option: CommitOption::Signoff, checked: self.signoff });
        entries.push(MenuEntry { option: CommitOption::SkipHooks, checked: self.skip_hooks });
        proof {
            assert(entries@ =~= self.menu(has_previous_commit));
        }
        entries
    }

    /// The commit section over `files`, with `typed` in the message box.
    pub fn commit_section(
        &self,
        typed: Option<&str>,
        has_branch: bool,
        files: &Vec<ChangedFile>,
    ) -> (section: CommitSection)
        ensures
            section@ == commit_section_of(*self, typed_text(typed), has_branch, files@),
    {
        let staged = staged_count(files);
        let total = files.len();
        let all_staged = staged > 0 && staged == total;
        let summary = decimal_text(staged as u64).concat(" of ").concat(
            decimal_text(total as u64).as_str(),
        ).concat(" staged");
        CommitSection {
            summary,
            stage_all_label: if all_staged {
                "Unstage all"
            } else {
                "Stage all"
            },
            can_stage_all: total > 0,
            commit_label: if self.amend {
                "Amend"
            } else {
                "Commit"
            },
            can_commit: !self.committing && commit_message(typed).is_some(),
            can_push: !self.pushing && has_branch,
        }
    }
}

/// What the commit section shows, and which of its buttons can be pressed.
pub struct CommitSection {
    pub summary: String,
    pub stage_all_label: &'static str,
    pub can_stage_all: bool,
    pub commit_label: &'static str,
    pub can_commit: bool,
    pub can_push: bool,
}

/// What the commit section shows, as a value.
pub struct CommitSectionView {
    pub summary: Seq<char>,
    pub stage_all_label: Seq<char>,
    pub can_stage_all: bool,
    pub commit_label: Seq<char>,
    pub can_commit: bool,
    pub can_push: bool,
}

impl View for CommitSection {
    type V = CommitSectionView;

    open spec fn view(&self) -> CommitSectionView {
        CommitSectionView {
            summary: self.summary@,
            stage_all_label: self.stage_all_label@,
            can_stage_all: self.can_stage_all,
            commit_label: self.commit_label@,
            can_commit: self.can_commit,
            can_push: self.can_push,
        }
    }
}

/// What the commit section shows over `files`, with `typed` in the message box.
pub open spec fn commit_section_of(
    desk: CommitDesk,
    typed: Option<Seq<char>>,
    has_branch: bool,
    files: Seq<ChangedFile>,
) -> CommitSectionView {
    let staged = staged_among(files);
    CommitSectionView {
        summary: decimal(staged) + " of "@ + decimal(files.len()) + " staged"@,
        stage_all_label: if staged > 0 && staged == files.len() {
            "Unstage all"@
        } else {
            "Stage all"@
        },
        can_stage_all: files.len() > 0,
        commit_label: if desk.amend {
            "Amend"@
        } else {
            "Commit"@
        },
        can_commit: !desk.committing && message_in(typed) is Some,
        can_push: !desk.pushing && has_branch,
    }
}

/// Whether some of `files` is staged in part only.
pub open spec fn any_partly_staged(files: Seq<ChangedFile>) -> bool {
    exists|i: int|
        0 <= i < files.len() && (#[trigger] files[i]).status.staging
            == StageStatus::PartiallyStaged
}

/// With no file staged in part, everything is staged exactly when as many files have something
/// staged as there are.
proof fn lemma_all_staged_by_count(files: Seq<ChangedFile>)
    requires
        !any_partly_staged(files),
    ensures
        staged_among(files) <= files.len(),
        staged_among(files) == files.len() <==> everything_staged(files),
    decreases files.len(),
{
    if files.len() > 0 {
        let front = files.drop_last();
        let last = files.last();
        assert(last == files[files.len() - 1]);
        assert(!any_partly_staged(front)) by {
            if any_partly_staged(front) {
                let i = choose|i: int|
                    0 <= i < front.len() && (#[trigger] front[i]).status.staging
                        == StageStatus::PartiallyStaged;
                assert(files[i] == front[i]);
            }
        }
        lemma_all_staged_by_count(front);
        if everything_staged(front) && last.status.staging == StageStatus::Staged {
            assert forall|i: int| 0 <= i < files.len() implies (#[trigger] files[i]).status.staging
                == StageStatus::Staged by {
                if i < front.len() {
                    assert(front[i] == files[i]);
                }
            }
        }
        if everything_staged(files) {
            assert forall|i: int| 0 <= i < front.len() implies (#[trigger] front[i]).status.staging
                == StageStatus::Staged by {
                assert(front[i] == files[i]);
            }
        }
    }
}

/// With no file staged in part, the button that covers the whole repository does what its label
/// says: it reads "Unstage all" exactly when pressing it, with anything to press it for, unstages
/// everything.
pub proof fn law_stage_all_label_says_what_it_does(
    desk: CommitDesk,
    typed: Option<Seq<char>>,
    has_branch: bool,
    files: Seq<ChangedFile>,
)
    requires
        files.len() > 0,
        !any_partly_staged(files),
    ensures
        commit_section_of(desk, typed, has_branch, files).stage_all_label
            == if everything_staged(files) {
            "Unstage all"@
        } else {
            "Stage all"@
        },
{
    lemma_all_staged_by_count(files);
}

/// The commit button can be pressed exactly when pressing it, with a repository at hand, starts a
/// commit; and the push button exactly when pressing it starts a push. A started one cannot be
/// started again before it has ended.
pub proof fn law_buttons_say_what_can_start(
    desk: CommitDesk,
    typed: Option<Seq<char>>,
    has_branch: bool,
    files: Seq<ChangedFile>,
)
    ensures
        commit_section_of(desk, typed, has_branch, files).can_commit == (message_in(typed) is Some
            && !desk.committing),
        !commit_section_of(
            CommitDesk { committing: true, ..desk },
            typed,
            has_branch,
            files,
        ).can_commit,
        commit_section_of(desk, typed, has_branch, files).can_push == (has_branch
            && !desk.pushing),
        !commit_section_of(CommitDesk { pushing: true, ..desk }, typed, has_branch, files).can_push,
{
}

/// Toggling an option twice changes nothing, and toggling it once changes that option alone.
pub proof fn law_options_toggle(desk: CommitDesk, option: CommitOption, other: CommitOption)
    ensures
        desk.flipped(option).flipped(option) == desk,
        desk.flipped(option).has(other) == if other == option {
            !desk.has(other)
        } else {
            desk.has(other)
        },
{
}

} // verus!
