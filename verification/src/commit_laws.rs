//! What a commit and a push are made with, told by what was typed and pressed.

use vstd::prelude::*;

use crate::changes::{ChangedFile, StageStatus};
use crate::commit::{
    commit_section_of, message_in, needs_upstream, optional_views, paths_to_stage, typed_text,
    CommitDesk, CommitOption, CommitSection, Upstream,
};
use crate::text::{decimal, is_white};

verus! {

/// A commit is made with the options that were pressed, each by its own toggle alone, and never
/// allows an empty one: two desks that agree on an option agree on what git is told of it.
pub proof fn law_commit_runs_with_what_was_pressed(desk: CommitDesk, other: CommitDesk)
    ensures
        desk.options().amend == desk.amend,
        desk.options().signoff == desk.signoff,
        desk.options().skip_hooks == desk.skip_hooks,
        !desk.options().allow_empty,
        desk.amend == other.amend ==> desk.options().amend == other.options().amend,
        desk.signoff == other.signoff ==> desk.options().signoff == other.options().signoff,
        desk.skip_hooks == other.skip_hooks ==> desk.options().skip_hooks
            == other.options().skip_hooks,
{
}

/// What git is told of an option.
pub open spec fn told(desk: CommitDesk, option: CommitOption) -> bool {
    match option {
        CommitOption::Amend => desk.options().amend,
        CommitOption::Signoff => desk.options().signoff,
        CommitOption::SkipHooks => desk.options().skip_hooks,
    }
}

/// The menu does not lie: a line is checked exactly where git would be told of its option. It
/// always offers sign-off and skipping hooks, in that order, and amending ahead of them exactly
/// where there is a commit to amend.
pub proof fn law_menu_shows_what_git_is_told(desk: CommitDesk, has_previous_commit: bool)
    ensures
        ({
            let menu = desk.menu(has_previous_commit);
            &&& forall|i: int|
                0 <= i < menu.len() ==> (#[trigger] menu[i]).checked == told(desk, menu[i].option)
            &&& menu.len() == if has_previous_commit {
                3int
            } else {
                2int
            }
            &&& has_previous_commit ==> menu[0].option == CommitOption::Amend
            &&& menu[menu.len() - 2].option == CommitOption::Signoff
            &&& menu[menu.len() - 1].option == CommitOption::SkipHooks
        }),
{
}

/// Pressing an option changes what git is told of that option, and of no other; nothing in flight
/// is touched. The desk's own record of an option is what git is told of it.
pub proof fn law_pressing_an_option(desk: CommitDesk, option: CommitOption, other: CommitOption)
    ensures
        told(desk.flipped(option), other) == (told(desk, other) != (option == other)),
        desk.flipped(option).has(other) == told(desk.flipped(option), other),
        desk.flipped(option).committing == desk.committing,
        desk.flipped(option).pushing == desk.pushing,
        desk.flipped(option).amend == (desk.amend != (option == CommitOption::Amend)),
        desk.flipped(option).signoff == (desk.signoff != (option == CommitOption::Signoff)),
        desk.flipped(option).skip_hooks == (desk.skip_hooks != (option
            == CommitOption::SkipHooks)),
{
}

/// A commit carries the message as it was typed, to the character, and there is one exactly where
/// some visible character was typed.
pub proof fn law_message_is_what_was_typed(text: Seq<char>)
    ensures
        message_in(None) is None,
        message_in(Some(text)) is Some <==> exists|i: int|
            0 <= i < text.len() && !is_white(#[trigger] text[i]),
        message_in(Some(text)) matches Some(message) ==> message == text,
{
}

/// What stands in an editor is taken as it is.
pub proof fn law_typed_text_as_a_value(typed: Option<&str>)
    ensures
        typed_text(typed) is Some <==> typed is Some,
        typed matches Some(text) ==> typed_text(typed) == Some(text@),
{
}

/// Nothing is staged ahead of a commit where any file has something staged, nor where git tracks
/// none of them. Otherwise it is the tracked files, in the order of the list.
pub proof fn law_what_is_staged_ahead(files: Seq<ChangedFile>)
    ensures
        ({
            let known = |file: ChangedFile| !file.status.untracked;
            let some_staged = exists|i: int|
                0 <= i < files.len() && (#[trigger] files[i]).status.staging
                    != StageStatus::Unstaged;
            &&& paths_to_stage(files) is Some <==> !some_staged && files.filter(known).len() > 0
            &&& paths_to_stage(files) matches Some(paths) ==> paths == files.filter(
                known,
            ).map_values(|file: ChangedFile| file.repo_path@)
        }),
{
    let known = |file: ChangedFile| !file.status.untracked;
    crate::changes_laws::law_tracked_paths_in_order(files);
    crate::changes_laws::law_staged_files_are_counted(files);
    assert(files.filter(known).map_values(|file: ChangedFile| file.repo_path@).len()
        == files.filter(known).len());
    if exists|i: int|
        0 <= i < files.len() && (#[trigger] files[i]).status.staging != StageStatus::Unstaged {
        let i = choose|i: int|
            0 <= i < files.len() && (#[trigger] files[i]).status.staging != StageStatus::Unstaged;
        assert(crate::changes_laws::in_next_commit(files[i]));
    }
}

/// A list of paths, or the lack of one, is taken as it is.
pub proof fn law_optional_paths_as_values(paths: Vec<String>)
    ensures
        optional_views(None) is None,
        optional_views(Some(paths)) is Some,
        optional_views(Some(paths))->0.len() == paths@.len(),
        forall|i: int|
            0 <= i < paths@.len() ==> optional_views(Some(paths))->0[i] == (
            #[trigger] paths@[i])@,
{
}

/// A push sets the upstream exactly where the branch follows nothing that is still there.
pub proof fn law_upstream_is_set_where_it_is_missing(upstream: Option<Upstream>)
    ensures
        needs_upstream(upstream) <==> upstream is None || upstream == Some(Upstream::Gone),
{
    if let Some(stands) = upstream {
        assert(stands == Upstream::Present || stands == Upstream::Gone);
    }
}

/// The commit section tells how many files have something staged, of how many, in that order; its
/// button says "Amend" exactly where the commit would amend; and there is something to stage
/// exactly where a file is listed. What is typed decides nothing but whether a commit can start,
/// and the branch nothing but whether a push can.
pub proof fn law_commit_section_tells(
    desk: CommitDesk,
    typed: Option<Seq<char>>,
    has_branch: bool,
    files: Seq<ChangedFile>,
)
    ensures
        ({
            let section = commit_section_of(desk, typed, has_branch, files);
            let staged = files.filter(
                |file: ChangedFile| crate::changes_laws::in_next_commit(file),
            ).len();
            &&& section.summary == decimal(staged) + " of "@ + decimal(files.len()) + " staged"@
            &&& section.commit_label == if told(desk, CommitOption::Amend) {
                "Amend"@
            } else {
                "Commit"@
            }
            &&& section.can_stage_all <==> files.len() != 0
            &&& section.can_commit <==> !desk.committing && typed is Some && exists|i: int|
                0 <= i < typed->0.len() && !is_white(#[trigger] typed->0[i])
            &&& section.can_push <==> has_branch && !desk.pushing
            &&& files.len() > 0 && staged == files.len() ==> section.stage_all_label
                == "Unstage all"@
            &&& staged != files.len() || staged == 0 ==> section.stage_all_label == "Stage all"@
        }),
{
    crate::changes_laws::law_staged_files_are_counted(files);
    if typed is Some {
        law_message_is_what_was_typed(typed->0);
    }
}

/// A commit section says the same as a value.
pub proof fn law_commit_section_as_a_value(section: CommitSection)
    ensures
        section@.summary == section.summary@,
        section@.stage_all_label == section.stage_all_label@,
        section@.can_stage_all == section.can_stage_all,
        section@.commit_label == section.commit_label@,
        section@.can_commit == section.can_commit,
        section@.can_push == section.can_push,
{
}

/// No two options go by the same name.
pub proof fn law_options_have_names(option: CommitOption)
    ensures
        option == CommitOption::Amend ==> option.name() == "Amend"@,
        option == CommitOption::Signoff ==> option.name() == "Signoff"@,
        option == CommitOption::SkipHooks ==> option.name() == "Skip hooks"@,
{
}

} // verus!
