//! What holds of the git window from one action to the next.

use vstd::prelude::*;

use crate::changes::{all_positions, display_paths, lies_under, ChangedFile};
use crate::display::displayed;
use crate::list_laws::{
    law_collapsing_every_directory_leaves_none_expanded, law_expanded_rows,
    law_nothing_collapsed_expands_every_directory, law_rows_show_listed_files,
    law_rows_show_what_is_collapsed, law_toggled_directory_stays_in_place,
    law_toggling_twice_changes_nothing,
};
use crate::listing::{any_expanded, directories_above, directory_at, file_at, is_expanded};
use crate::outline::{arranged, tree_of};
use crate::outline_laws::{
    contents_of, law_chains_share_a_row, law_every_file_is_shown, law_label_ends_the_path,
    lone_subdirectory, relative_paths,
};
use crate::placement_laws::{law_rows_sit_where_their_paths_say, level_of};
use crate::plus_git::{has_hunks, layout_for, HeaderControls, ListSize, WindowView};
use crate::preview::{law_pane_turns_to_the_file, PreviewTask};
use crate::staging_laws::{in_directory, law_under_a_directory};
use crate::text::slash_free;
use crate::tree::row_depth;
use crate::tree_laws::shown_files;

verus! {

/// Moving the selection down and up again brings it back, also around the ends of the list.
pub proof fn law_next_undoes_previous(window: WindowView)
    requires
        window.selection_in_range(),
        window.rows().len() > 0,
    ensures
        ({
            let down = window.selected_at(window.next_index()).previewed();
            down.selected_at(down.previous_index()).selected == window.selected
        }),
        ({
            let up = window.selected_at(window.previous_index()).previewed();
            up.selected_at(up.next_index()).selected == window.selected
        }),
{
}

/// Wherever it is moved to, the selection stays in the list, and the list stays as it is.
pub proof fn law_selection_stays_in_range(window: WindowView, index: int)
    requires
        0 <= index,
    ensures
        window.selected_at(index).previewed().selection_in_range(),
        window.selected_at(index).previewed().rows() == window.rows(),
{
}

/// Collapsing a directory and expanding it again, or the other way round, leaves the window as it
/// was, with the selection still on that directory in between.
pub proof fn law_toggling_a_directory_twice_changes_nothing(window: WindowView)
    requires
        window.selection_in_range(),
        relative_paths(display_paths(window.files)),
    ensures
        window.directory_toggled().directory_toggled() == window,
        directory_at(window.directory_toggled().rows(), window.directory_toggled().selected)
            == directory_at(window.rows(), window.selected),
{
    if let Some(path) = directory_at(window.rows(), window.selected) {
        let once = window.directory_toggled();
        law_toggled_directory_stays_in_place(
            display_paths(window.files),
            all_positions(window.files.len()),
            window.compress,
            window.collapsed,
            window.selected,
        );
        assert(once.selected == window.selected);
        assert(directory_at(once.rows(), once.selected) == Some(path));
        law_toggling_twice_changes_nothing(window.collapsed, path);
        assert(once.directory_toggled() == window);
    }
}

proof fn lemma_positions_in_range(count: nat, len: nat)
    requires
        count <= len <= usize::MAX,
    ensures
        all_positions(count).filter(|entry: usize| entry < len) == all_positions(count),
    decreases count,
{
    reveal(Seq::filter);
    if count > 0 {
        let fewer = (count - 1) as nat;
        lemma_positions_in_range(fewer, len);
        assert(all_positions(count).drop_last() =~= all_positions(fewer));
        assert(all_positions(count) =~= all_positions(fewer).push(fewer as usize));
    } else {
        assert(all_positions(0) =~= Seq::<usize>::empty());
    }
}

/// One button covers both directions: with any directory expanded it collapses every one, and
/// with none expanded it expands every one, so that every file is in view again.
pub proof fn law_one_button_collapses_and_expands(window: WindowView)
    requires
        window.files.len() <= usize::MAX,
        relative_paths(display_paths(window.files)),
    ensures
        any_expanded(window.rows()) ==> !any_expanded(window.all_toggled().rows()),
        !any_expanded(window.rows()) ==> {
            let rows = window.all_toggled().rows();
            &&& forall|i: int|
                0 <= i < rows.len() && (#[trigger] rows[i]) is Directory ==> is_expanded(rows[i])
            &&& shown_files(rows).to_multiset() == all_positions(
                window.files.len(),
            ).to_multiset()
        },
{
    let paths = display_paths(window.files);
    let order = all_positions(window.files.len());
    if any_expanded(window.rows()) {
        law_collapsing_every_directory_leaves_none_expanded(paths, order, window.compress);
    } else {
        let rows = window.all_toggled().rows();
        assert forall|i: int| 0 <= i < rows.len() && (
        #[trigger] rows[i]) is Directory implies is_expanded(rows[i]) by {
            law_nothing_collapsed_expands_every_directory(paths, order, window.compress, i);
        }
        law_every_file_is_shown(paths, order, window.compress);
        lemma_positions_in_range(window.files.len(), window.files.len());
    }
}

/// Every row of the list can be drawn: there is a directory or a listed file behind each.
pub proof fn law_every_row_can_be_drawn(window: WindowView, index: int)
    requires
        0 <= index < window.rows().len(),
    ensures
        displayed(window.rows(), window.files, index) is Some,
        window.rows()[index] is File ==> file_at(window.rows(), index, window.files.len()) is Some,
{
    if window.rows()[index] is File {
        law_rows_show_listed_files(
            display_paths(window.files),
            all_positions(window.files.len()),
            window.compress,
            window.collapsed,
            index,
        );
        assert(display_paths(window.files).len() == window.files.len());
    }
}

/// Giving every directory a row and folding chains again brings back the same rows.
pub proof fn law_folding_again_restores_the_rows(window: WindowView)
    ensures
        ({
            let once = (WindowView { compress: !window.compress, ..window }).reselected();
            let twice = (WindowView { compress: !once.compress, ..once }).reselected();
            &&& twice.rows() == window.rows()
            &&& twice.collapsed == window.collapsed
            &&& twice.files == window.files
        }),
{
}

/// Down goes to the next row and up to the one before, round the ends of the list. First and last
/// go to its ends. Wherever it goes, the selection lands where it was sent, as far as there is
/// such a row.
pub proof fn law_moving_through_the_list(window: WindowView, index: int)
    requires
        window.selection_in_range(),
        window.rows().len() > 0,
        0 <= index,
    ensures
        ({
            let len = window.rows().len() as int;
            &&& window.next_index() == (window.selected + 1) % len
            &&& window.previous_index() == (window.selected + len - 1) % len
            &&& window.last_index() == len - 1
            &&& index < len ==> window.selected_at(index).selected == index
            &&& index >= len ==> window.selected_at(index).selected == len - 1
        }),
{
    let len = window.rows().len() as int;
    let selected = window.selected;
    if selected + 1 < len {
        vstd::arithmetic::div_mod::lemma_small_mod((selected + 1) as nat, len as nat);
    } else {
        vstd::arithmetic::div_mod::lemma_mod_self_0(len);
    }
    if selected > 0 {
        vstd::arithmetic::div_mod::lemma_mod_add_multiples_vanish(selected - 1, len);
        vstd::arithmetic::div_mod::lemma_small_mod((selected - 1) as nat, len as nat);
    } else {
        vstd::arithmetic::div_mod::lemma_small_mod((len - 1) as nat, len as nat);
    }
}

/// The diff pane follows the selection. On a file of the project it is at that file, and loads
/// unless it was there already; the header offers to step through a file that git has seen before,
/// and only that. On a directory, or on a file outside every worktree, it stays as it is. With
/// nothing listed it is cleared. Nothing but the pane changes.
pub proof fn law_pane_follows_the_selection(window: WindowView)
    ensures
        ({
            let after = window.previewed();
            let rows = window.rows();
            let at = window.selected;
            let on_file = 0 <= at < rows.len() && rows[at] is File && rows[at]->entry
                < window.files.len();
            &&& after == (WindowView { preview: after.preview, ..window })
            &&& on_file && window.files[rows[at]->entry as int].project_file is Some ==> {
                let file = window.files[rows[at]->entry as int];
                let path = file.project_file->0.path;
                let there = window.preview.current_path is Some
                    && window.preview.current_path->0.worktree_id == path.worktree_id
                    && window.preview.current_path->0.path == path.path@;
                &&& window.target() == Some(rows[at]->entry)
                &&& after.preview.current_path is Some
                &&& after.preview.current_path->0.worktree_id == path.worktree_id
                &&& after.preview.current_path->0.path == path.path@
                &&& there ==> window.preview_task() == PreviewTask::Keep && after.preview
                    == window.preview
                &&& !there ==> {
                    &&& window.preview_task() == PreviewTask::Load(after.preview.load)
                    &&& after.preview.load != window.preview.load
                    &&& after.preview.has_hunks <==> !file.status.untracked
                        && !file.status.created
                }
            }
            &&& rows.len() > 0 && !(on_file && window.files[
            rows[at]->entry as int].project_file is Some) ==> {
                &&& window.target() is None
                &&& after.preview == window.preview
                &&& window.preview_task() == PreviewTask::Keep
            }
            &&& rows.len() == 0 ==> {
                &&& after.preview.current_path is None
                &&& after.preview.message == Some("Select a file to see its diff"@)
                &&& window.preview_task() == PreviewTask::Clear
            }
        }),
{
    if let Some(entry) = window.target() {
        law_pane_turns_to_the_file(
            window.preview,
            window.files[entry as int].project_file->0,
            has_hunks(window.files[entry as int]),
        );
    }
}

/// Collapsing or expanding the selected directory turns round that directory and no other, and
/// changes nothing but that and where the selection can be. On anything else it does nothing.
pub proof fn law_enter_on_a_directory(window: WindowView, other: Seq<char>)
    ensures
        ({
            let after = window.directory_toggled();
            let at = window.selected;
            let on_directory = 0 <= at < window.rows().len() && window.rows()[at] is Directory;
            &&& after == (WindowView {
                collapsed: after.collapsed,
                selected: after.selected,
                ..window
            })
            &&& !on_directory ==> after == window
            &&& on_directory ==> (after.collapsed.contains(other) <==> (window.collapsed.contains(
                other,
            ) != (other == window.rows()[at]->path)))
        }),
{
}

/// The button that covers every directory changes what is collapsed and where the selection can
/// be, and nothing else.
pub proof fn law_one_button_touches_directories_only(window: WindowView)
    ensures
        ({
            let after = window.all_toggled();
            &&& after == (WindowView {
                collapsed: after.collapsed,
                selected: after.selected,
                ..window
            })
            &&& 0 <= window.selected < after.rows().len() ==> after.selected == window.selected
        }),
{
}

/// A repository that is adopted is shown from the top and fully expanded, with no diff of the last
/// one left, and whatever still loads for that one no longer counting. What the user chose for the
/// window, and what is in flight, stays.
pub proof fn law_adopting_a_repository(
    window: WindowView,
    repository: Option<u64>,
    files: Seq<ChangedFile>,
    path: Seq<char>,
)
    ensures
        ({
            let after = window.adopted(repository, files);
            &&& after.repository == repository
            &&& after.files == files
            &&& after.selected == 0
            &&& !after.collapsed.contains(path)
            &&& after.preview.current_path is None
            &&& after.preview.message is Some
            &&& after.preview.load != window.preview.load
            &&& after.multi_workspace == window.multi_workspace
            &&& after.workspace == window.workspace
            &&& after.project == window.project
            &&& after.compress == window.compress
            &&& after.preview_enabled == window.preview_enabled
            &&& after.desk == window.desk
        }),
{
}

/// A list that is read anew keeps what is collapsed, the diff that is shown and the selection, as
/// far as it is still in the list.
pub proof fn law_reading_the_list_anew(window: WindowView, files: Seq<ChangedFile>)
    requires
        0 <= window.selected,
    ensures
        ({
            let after = window.listing(files);
            &&& after == (WindowView { files, selected: after.selected, ..window })
            &&& window.selected < after.rows().len() ==> after.selected == window.selected
            &&& 0 < after.rows().len() <= window.selected ==> after.selected + 1
                == after.rows().len()
            &&& after.rows().len() == 0 ==> after.selected == 0
        }),
{
}

/// Every listed file is shown while nothing is collapsed, and a directory's row is marked exactly
/// where it is collapsed. A chain is folded only where folding is on.
pub proof fn law_window_lists_its_files(window: WindowView, i: int)
    requires
        window.files.len() <= usize::MAX,
        0 <= i < window.rows().len(),
    ensures
        window.collapsed == Set::<Seq<char>>::empty() ==> shown_files(
            window.rows(),
        ).to_multiset() == all_positions(window.files.len()).to_multiset(),
        window.rows()[i] is Directory ==> window.rows()[i]->collapsed == window.collapsed.contains(
            window.rows()[i]->path,
        ),
        window.rows()[i] is Directory && !window.compress ==> slash_free(window.rows()[i]->label),
{
    let paths = display_paths(window.files);
    let order = all_positions(window.files.len());
    law_every_file_is_shown(paths, order, window.compress);
    lemma_positions_in_range(window.files.len(), window.files.len());
    if window.rows()[i] is Directory {
        law_rows_show_what_is_collapsed(paths, order, window.compress, window.collapsed, i);
        if !window.compress {
            law_label_ends_the_path(paths, order, window.compress, window.collapsed, i);
        }
    }
}

/// There is a diff pane exactly where one is wanted. The list fills the window without one, and
/// stands beside it or above it with one, by the room there is. The commit section gives way only
/// where list and diff are stacked.
pub proof fn law_layout_follows_the_room(preview_enabled: bool, side_by_side: bool)
    ensures
        ({
            let layout = layout_for(preview_enabled, side_by_side);
            &&& layout.diff <==> preview_enabled
            &&& layout.list == ListSize::Fill <==> !preview_enabled
            &&& layout.list == ListSize::Column <==> preview_enabled && side_by_side
            &&& layout.list == ListSize::Band <==> preview_enabled && !side_by_side
            &&& !layout.commit_section <==> preview_enabled && !side_by_side
        }),
{
}

/// The controls above the list say what pressing them does: the folding button reads as pressed
/// while every directory has a row, and the collapse button collapses exactly while any directory
/// is expanded.
pub proof fn law_controls_say_what_they_do(window: WindowView, controls: HeaderControls)
    requires
        window.header(controls),
    ensures
        controls.every_directory <==> !window.compress,
        controls.compress_tooltip@ == if window.compress {
            "Show Every Directory"@
        } else {
            "Fold Single-Child Directories"@
        },
        controls.collapse_all <==> exists|i: int|
            0 <= i < window.rows().len() && (#[trigger] window.rows()[i]) is Directory
                && !window.rows()[i]->collapsed,
        controls.collapse_tooltip@ == if controls.collapse_all {
            "Collapse All"@
        } else {
            "Expand All"@
        },
        controls.preview_enabled == window.preview_enabled,
{
    law_expanded_rows(window.rows(), Seq::empty());
}

/// The selection is in range exactly where a row stands there, or where it is the first position
/// of a list without rows.
pub proof fn law_selection_in_range(window: WindowView)
    ensures
        window.rows().len() > 0 ==> (window.selection_in_range() <==> 0 <= window.selected
            < window.rows().len()),
        window.rows().len() == 0 ==> (window.selection_in_range() <==> window.selected == 0),
{
}

/// What the button that covers every directory collapses: with any directory expanded, every one
/// that a listed file lies in, at any depth, and no other. With none expanded, nothing stays
/// collapsed.
pub proof fn law_one_button_collapses_every_directory(window: WindowView, path: Seq<char>)
    ensures
        ({
            let after = window.all_toggled();
            let any = exists|i: int|
                0 <= i < window.rows().len() && (#[trigger] window.rows()[i]) is Directory
                    && !window.rows()[i]->collapsed;
            &&& any ==> (after.collapsed.contains(path) <==> exists|e: int|
                0 <= e < window.files.len() && in_directory(
                    (#[trigger] window.files[e]).display_path@,
                    path,
                ))
            &&& !any ==> !after.collapsed.contains(path)
        }),
{
    let paths = display_paths(window.files);
    law_expanded_rows(window.rows(), path);
    if directories_above(paths).contains(path) {
        let e = choose|e: int| 0 <= e < paths.len() && lies_under(#[trigger] paths[e], path);
        law_under_a_directory(paths[e], path);
        assert(in_directory(window.files[e].display_path@, path));
    }
    if exists|e: int|
        0 <= e < window.files.len() && in_directory(
            (#[trigger] window.files[e]).display_path@,
            path,
        ) {
        let e = choose|e: int|
            0 <= e < window.files.len() && in_directory(
                (#[trigger] window.files[e]).display_path@,
                path,
            );
        law_under_a_directory(paths[e], path);
        assert(lies_under(paths[e], path));
    }
}

/// While folding is on, no expanded directory is left with a single subdirectory and nothing else:
/// such chains share a row. While it is off, a label is a single name. Either way the rows one
/// level below a directory are those of that directory.
pub proof fn law_folding_follows_the_choice(window: WindowView, i: int)
    requires
        0 <= i < window.rows().len(),
        window.rows()[i] is Directory,
        relative_paths(display_paths(window.files)),
    ensures
        window.compress && !window.rows()[i]->collapsed ==> !lone_subdirectory(
            contents_of(window.rows(), i),
        ),
        !window.compress ==> slash_free(window.rows()[i]->label),
        level_of(
            contents_of(window.rows(), i),
            row_depth(window.rows()[i]) + 1,
            window.rows()[i]->path,
            display_paths(window.files),
        ),
        level_of(window.rows(), 0, Seq::empty(), display_paths(window.files)),
{
    let paths = display_paths(window.files);
    let order = all_positions(window.files.len());
    law_rows_sit_where_their_paths_say(paths, order, window.compress, window.collapsed);
    if window.compress && !window.rows()[i]->collapsed {
        law_chains_share_a_row(
            tree_of(paths, arranged(paths, order)),
            Seq::empty(),
            0,
            window.collapsed,
            i,
        );
    }
    if !window.compress {
        law_label_ends_the_path(paths, order, window.compress, window.collapsed, i);
    }
}

} // verus!
