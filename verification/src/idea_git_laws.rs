//! What holds of the git modal from one action to the next.

use vstd::prelude::*;

use crate::changes::display_paths;
use crate::idea_git::{kept, unfiltered, DelegateView, MAX_MATCHES};
use crate::list_laws::{
    law_collapsing_what_is_shown_collapses_all, law_expanded_rows,
    law_nothing_collapsed_expands_every_directory, law_rows_show_what_is_collapsed, law_toggled_directory_stays_in_place,
    law_toggling_twice_changes_nothing,
};
use crate::listing::{any_expanded, directory_at, is_expanded};
use crate::outline::outline;
use crate::outline_laws::{law_every_file_is_shown, relative_paths};
use crate::runs::{law_run_numbers_do_not_repeat, runs_after};
use crate::text::decimal;
use crate::tree_laws::shown_files;

verus! {

/// A match cannot hide inside a collapsed directory: while a query is active every match that is
/// kept is shown, whatever is collapsed.
pub proof fn law_no_match_hides(list: DelegateView, matches: Seq<usize>)
    requires
        list.query_is_active,
    ensures
        shown_files(list.filtered(list.filter, matches).rows).to_multiset() == kept(matches).filter(
            |entry: usize| entry < list.files.len(),
        ).to_multiset(),
        matches.len() <= MAX_MATCHES ==> kept(matches) == matches,
{
    law_every_file_is_shown(display_paths(list.files), kept(matches), true);
    assert(display_paths(list.files).len() == list.files.len());
}

/// Clearing the query puts the tree back the way the user left it, whatever the query matched in
/// between and whichever directories were pressed meanwhile. With a query or without, the matches
/// stay within the bound.
pub proof fn law_clearing_the_query_restores_the_tree(list: DelegateView, matches: Seq<usize>)
    ensures
        ({
            let before = list.unqueried();
            let queried = before.queried();
            let filtered = queried.filtered(queried.filter, matches);
            let after = filtered.unqueried();
            &&& after == DelegateView { filter: after.filter, ..before }
            &&& after.rows == before.rows
            &&& after.matches == unfiltered(list.files.len())
            &&& after.selected == 0
            &&& !after.query_is_active
            &&& filtered.collapsed == list.collapsed
            &&& filtered.directory_toggled() == filtered
            &&& before.matches.len() <= MAX_MATCHES
            &&& filtered.matches.len() <= MAX_MATCHES
        }),
{
}

/// A new query abandons the filter of the one before, also one that is taken away: whatever that
/// filter still matches changes nothing, for as long as the new query stands.
pub proof fn law_new_query_abandons_the_earlier_filter(
    list: DelegateView,
    now: DelegateView,
    matches: Seq<usize>,
)
    requires
        now.filter == list.queried().filter || now.filter == list.unqueried().filter,
    ensures
        list.queried().filtered(list.filter, matches) == list.queried(),
        list.unqueried().filtered(list.filter, matches) == list.unqueried(),
        now.filtered(list.filter, matches) == now,
        now.filtered(now.filter, matches).filter == now.filter,
{
}

/// A filter stays abandoned through every later query: `count` queries on, the list waits for a
/// filter of another number.
pub proof fn law_abandoned_filter_stays_abandoned(
    list: DelegateView,
    later: DelegateView,
    count: nat,
    matches: Seq<usize>,
)
    requires
        0 < count <= u64::MAX,
        later.filter == runs_after(list.filter, count),
    ensures
        later.filtered(list.filter, matches) == later,
{
    law_run_numbers_do_not_repeat(list.filter, count);
}

/// Collapsing a directory and expanding it again, or the other way round, leaves the list as it
/// was.
pub proof fn law_toggling_a_directory_twice_changes_nothing(list: DelegateView)
    requires
        relative_paths(display_paths(list.files)),
        list.rows == list.outline(),
        0 <= list.selected,
        list.selected < list.rows.len() || list.selected == 0,
    ensures
        list.directory_toggled().directory_toggled() == list,
{
    if let Some(path) = directory_at(list.rows, list.selected) {
        if !list.query_is_active {
            let once = list.directory_toggled();
            law_toggled_directory_stays_in_place(
                display_paths(list.files),
                list.matches,
                true,
                list.collapsed,
                list.selected,
            );
            assert(once.selected == list.selected);
            assert(directory_at(once.rows, once.selected) == Some(path));
            law_toggling_twice_changes_nothing(list.collapsed, path);
            assert(once.directory_toggled() == list);
        }
    }
}

/// One button covers both directions: with any directory expanded it collapses every one that is
/// shown, and with none expanded it expands every one.
pub proof fn law_one_button_collapses_and_expands(list: DelegateView)
    requires
        !list.query_is_active,
        list.rows == list.outline(),
    ensures
        any_expanded(list.rows) ==> !any_expanded(list.all_toggled().rows) && list.all_toggled()
            == list.shown_collapsed(),
        !any_expanded(list.rows) ==> forall|i: int|
            0 <= i < list.all_toggled().rows.len() && (
            #[trigger] list.all_toggled().rows[i]) is Directory ==> is_expanded(
                list.all_toggled().rows[i],
            ),
{
    let paths = display_paths(list.files);
    if any_expanded(list.rows) {
        law_collapsing_what_is_shown_collapses_all(paths, list.matches, true, list.collapsed);
    } else {
        let rows = list.all_toggled().rows;
        assert forall|i: int| 0 <= i < rows.len() && (
        #[trigger] rows[i]) is Directory implies is_expanded(rows[i]) by {
            law_nothing_collapsed_expands_every_directory(paths, list.matches, true, i);
        }
    }
}

/// However many files changed or match, the list is bounded; and where there is room it leaves
/// none out.
pub proof fn law_list_is_bounded(list: DelegateView, matches: Seq<usize>)
    ensures
        list.unqueried().matches.len() <= MAX_MATCHES,
        list.files.len() <= MAX_MATCHES ==> list.unqueried().matches.len() == list.files.len(),
        forall|i: int|
            0 <= i < list.unqueried().matches.len() ==> #[trigger] list.unqueried().matches[i] == i,
        list.filtered(list.filter, matches).matches.len() <= MAX_MATCHES,
        list.filtered(list.filter, matches).matches.is_prefix_of(matches),
        matches.len() <= MAX_MATCHES ==> list.filtered(list.filter, matches).matches == matches,
{
    assert(unfiltered(list.files.len()).len() <= MAX_MATCHES);
    assert(kept(matches) =~= matches.subrange(0, kept(matches).len() as int));
}

/// While a query is active, the button that collapses everything leaves the list alone as long as
/// it shows a directory, all of which are expanded.
pub proof fn law_query_keeps_the_tree_expanded(list: DelegateView)
    requires
        list.query_is_active,
        list.rows == list.outline(),
        exists|i: int| 0 <= i < list.rows.len() && (#[trigger] list.rows[i]) is Directory,
    ensures
        any_expanded(list.rows),
        list.all_toggled() == list,
{
    let i = choose|i: int| 0 <= i < list.rows.len() && (#[trigger] list.rows[i]) is Directory;
    law_nothing_collapsed_expands_every_directory(
        display_paths(list.files),
        list.matches,
        true,
        i,
    );
    assert(is_expanded(list.rows[i]));
}

/// The matches that are kept are the first ones, as many as there is room for. Without a query
/// they are the files in their own order.
pub proof fn law_first_matches_are_kept(matches: Seq<usize>, count: nat, i: int)
    requires
        count <= usize::MAX,
    ensures
        kept(matches).is_prefix_of(matches),
        kept(matches).len() == if matches.len() < MAX_MATCHES {
            matches.len()
        } else {
            MAX_MATCHES as nat
        },
        unfiltered(count).len() == if count < MAX_MATCHES {
            count
        } else {
            MAX_MATCHES as nat
        },
        0 <= i < unfiltered(count).len() ==> unfiltered(count)[i] == i,
{
    assert(kept(matches) =~= matches.subrange(0, kept(matches).len() as int));
}

/// What a filter matched is listed from the top, as a tree in which nothing is folded away while
/// the query stands. Only what is listed changes: not the files, nor what is collapsed, nor what
/// is in flight, nor the preview.
pub proof fn law_filter_changes_what_is_listed(list: DelegateView, matches: Seq<usize>)
    ensures
        ({
            let after = list.filtered(list.filter, matches);
            &&& after == (DelegateView {
                matches: after.matches,
                rows: after.rows,
                selected: 0,
                ..list
            })
            &&& after.matches == kept(matches)
            &&& list.query_is_active ==> after.rows == outline(
                display_paths(list.files),
                kept(matches),
                true,
                Set::empty(),
            )
            &&& !list.query_is_active ==> after.rows == outline(
                display_paths(list.files),
                kept(matches),
                true,
                list.collapsed,
            )
        }),
{
}

/// A query changes nothing but that it stands and which filter is waited for, until that filter is
/// done. Taking it away lists the files in their own order at once, with the directories collapsed
/// that the user collapsed.
pub proof fn law_query_waits_for_its_filter(list: DelegateView)
    ensures
        list.queried() == (DelegateView {
            query_is_active: true,
            filter: list.queried().filter,
            ..list
        }),
        list.queried().filter != list.filter,
        list.unqueried().filter != list.filter,
        ({
            let after = list.unqueried();
            &&& !after.query_is_active
            &&& after.selected == 0
            &&& after.matches == unfiltered(list.files.len())
            &&& after.rows == outline(
                display_paths(list.files),
                unfiltered(list.files.len()),
                true,
                list.collapsed,
            )
            &&& after == (DelegateView {
                matches: after.matches,
                rows: after.rows,
                query_is_active: false,
                selected: 0,
                filter: after.filter,
                ..list
            })
        }),
{
}

/// Collapsing or expanding the selected directory turns round that directory and no other, and
/// changes nothing but that, the rows and where the selection can be. On anything else, and while
/// a query stands, it does nothing.
pub proof fn law_enter_on_a_directory(list: DelegateView, other: Seq<char>)
    requires
        0 <= list.selected,
    ensures
        ({
            let after = list.directory_toggled();
            let at = list.selected;
            let acts = !list.query_is_active && at < list.rows.len() && list.rows[at] is Directory;
            &&& !acts ==> after == list
            &&& acts ==> {
                &&& after.collapsed.contains(other) <==> (list.collapsed.contains(other) != (other
                    == list.rows[at]->path))
                &&& after.rows == outline(
                    display_paths(list.files),
                    list.matches,
                    true,
                    after.collapsed,
                )
                &&& after == (DelegateView {
                    collapsed: after.collapsed,
                    rows: after.rows,
                    selected: after.selected,
                    ..list
                })
                &&& at < after.rows.len() ==> after.selected == at
                &&& 0 < after.rows.len() <= at ==> after.selected + 1 == after.rows.len()
            }
        }),
{
}

/// The button that covers every directory changes what is collapsed, the rows and where the
/// selection can be, and nothing else. The rows it leaves are those of the matches, marked exactly
/// where they are collapsed.
pub proof fn law_one_button_touches_directories_only(list: DelegateView, i: int)
    requires
        !list.query_is_active,
        0 <= i < list.all_toggled().rows.len(),
    ensures
        ({
            let after = list.all_toggled();
            &&& after == (DelegateView {
                collapsed: after.collapsed,
                rows: after.rows,
                selected: after.selected,
                ..list
            })
            &&& after.rows == outline(
                display_paths(list.files),
                list.matches,
                true,
                after.collapsed,
            )
            &&& after.rows[i] is Directory ==> after.rows[i]->collapsed
                == after.collapsed.contains(after.rows[i]->path)
        }),
{
    let after = list.all_toggled();
    if after.rows[i] is Directory {
        law_rows_show_what_is_collapsed(
            display_paths(list.files),
            list.matches,
            true,
            after.collapsed,
            i,
        );
    }
}

/// The status bar counts the changed files, and while a query stands the rows that are left beside
/// them. An empty list says why it is empty.
pub proof fn law_status_bar_counts(list: DelegateView)
    ensures
        list.files.len() == 0 ==> list.summary() == "No changes"@,
        list.files.len() > 0 && !list.query_is_active ==> list.summary() == decimal(
            list.files.len(),
        ) + " changed files"@,
        list.files.len() > 0 && list.query_is_active ==> list.summary() == decimal(list.rows.len())
            + " of "@ + decimal(list.files.len()) + " changed files"@,
        list.repository is None ==> list.empty_text() == "No git repository"@,
        list.repository is Some && list.files.len() == 0 ==> list.empty_text() == "No changes"@,
        list.repository is Some && list.files.len() > 0 ==> list.empty_text()
            == "No matching files"@,
{
}

/// What the button that covers every directory collapses: with rows that are up to date, those
/// directories that are shown expanded, on top of what was collapsed. With none expanded it
/// forgets everything that was collapsed.
pub proof fn law_one_button_collapses_what_is_shown(list: DelegateView, path: Seq<char>)
    requires
        !list.query_is_active,
        list.rows == list.outline(),
    ensures
        ({
            let after = list.all_toggled();
            let shown_expanded = |p: Seq<char>|
                exists|i: int|
                    0 <= i < list.rows.len() && (#[trigger] list.rows[i]) is Directory
                        && !list.rows[i]->collapsed && list.rows[i]->path == p;
            let any = exists|i: int|
                0 <= i < list.rows.len() && (#[trigger] list.rows[i]) is Directory
                    && !list.rows[i]->collapsed;
            &&& any ==> (after.collapsed.contains(path) <==> list.collapsed.contains(path)
                || shown_expanded(path))
            &&& !any ==> !after.collapsed.contains(path)
        }),
{
    law_expanded_rows(list.rows, path);
    law_collapsing_what_is_shown_collapses_all(
        display_paths(list.files),
        list.matches,
        true,
        list.collapsed,
    );
}

} // verus!
