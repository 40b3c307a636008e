//! What holds of the search modal, whatever a search finds.

use std::ops::Range;

use vstd::prelude::*;
use vstd::utf8::{encode_utf8, is_char_boundary};

use crate::changes::ProjectFile;
use crate::idea_search::{
    countable, end_in_row, files_of, name_or_empty, row_for, span_views, spans_of, total_len, Chunk,
    FoundRange, ScanAction, ScanEvent, SearchMatch, SearchOption, SearchOptions, SearchView,
    MAX_MATCHES,
};
use crate::preview::PathView;
use crate::row_text::{
    indentation, law_highlight_is_usable, law_match_is_shown, law_row_text_is_short,
    CONTEXT_BEFORE_MATCH, MAX_ROW_TEXT_LEN,
};
use crate::runs::{law_run_numbers_do_not_repeat, runs_after};
use crate::text::decimal;

verus! {

/// The files that are counted are those of the matches, each once.
pub proof fn law_files_are_counted_once<T>(matches: Seq<SearchMatch<T>>, path: PathView)
    ensures
        files_of(matches).no_duplicates(),
        files_of(matches).contains(path) <==> exists|i: int|
            0 <= i < matches.len() && #[trigger] matches[i].path@ == path,
        files_of(matches).len() <= matches.len(),
    decreases matches.len(),
{
    if matches.len() > 0 {
        let front = matches.drop_last();
        let last = matches.last().path@;
        let before = files_of(front);
        let after = files_of(matches);
        law_files_are_counted_once(front, path);
        if before.contains(path) {
            let i = choose|i: int| 0 <= i < front.len() && #[trigger] front[i].path@ == path;
            assert(matches[i].path@ == path);
            let k = choose|k: int| 0 <= k < before.len() && before[k] == path;
            assert(after[k] == path);
        }
        if path == last {
            assert(matches[matches.len() - 1].path@ == path);
            if !before.contains(last) {
                assert(after[after.len() - 1] == path);
            }
        }
        if exists|i: int| 0 <= i < matches.len() && #[trigger] matches[i].path@ == path {
            let i = choose|i: int| 0 <= i < matches.len() && #[trigger] matches[i].path@ == path;
            if i < front.len() {
                assert(front[i].path@ == path);
            }
        }
        if after.contains(path) && !before.contains(path) {
            let k = choose|k: int| 0 <= k < after.len() && after[k] == path;
            if k < before.len() {
                assert(before[k] == path);
            }
        }
    }
}

/// However much a search finds, the list stays within its bound, and what is listed stays listed
/// in the order it was found.
pub proof fn law_matches_are_bounded<T>(list: SearchView<T>, found: Seq<SearchMatch<T>>)
    requires
        list.matches.len() <= MAX_MATCHES,
    ensures
        list.accepting(found).matches.len() <= MAX_MATCHES,
        list.matches.is_prefix_of(list.accepting(found).matches),
        list.accepting(found).matches.is_prefix_of(list.matches + found),
        list.matches.len() + found.len() <= MAX_MATCHES ==> list.accepting(found).matches
            == list.matches + found,
{
    let after = list.accepting(found).matches;
    assert(list.matches =~= after.subrange(0, list.matches.len() as int));
    assert(after =~= (list.matches + found).subrange(0, after.len() as int));
}

/// The batches that results arrive in make no difference to the list.
pub proof fn law_batches_do_not_matter<T>(
    list: SearchView<T>,
    first: Seq<SearchMatch<T>>,
    second: Seq<SearchMatch<T>>,
)
    requires
        list.matches.len() <= MAX_MATCHES,
    ensures
        list.accepting(first).accepting(second) == list.accepting(first + second),
{
    assert(list.accepting(first).accepting(second).matches =~= list.accepting(
        first + second,
    ).matches);
}

/// The spinner tells the truth: it turns for as long as the scan waits for more, and stands still
/// once the scan has stopped.
pub proof fn law_spinner_follows_the_scan<T>(list: SearchView<T>, event: ScanEvent<T>)
    requires
        list.is_searching,
    ensures
        list.stepped(event).0.is_searching <==> list.stepped(event).1 == ScanAction::Await,
{
}

/// A new query abandons the scan of the one before: whatever that scan still comes to, it stops
/// and leaves the list alone, from the moment the list is started over and for as long as the new
/// query stands. A query of nothing leaves an empty list, with nothing searching.
pub proof fn law_new_query_abandons_the_earlier_scan<T>(
    list: SearchView<T>,
    for_query: bool,
    now: SearchView<T>,
    event: ScanEvent<T>,
)
    requires
        now.scan == list.queried(for_query).scan,
    ensures
        list.queried(for_query).matches.len() == 0,
        files_of(list.queried(for_query).matches).len() == 0,
        list.queried(for_query).selected == 0,
        list.queried(for_query).is_searching == for_query,
        list.queried(for_query).scanned(list.scan, event) == (
            list.queried(for_query),
            ScanAction::Stop,
        ),
        now.scanned(list.scan, event) == (now, ScanAction::Stop),
{
}

/// What a scan comes to never changes which scan the list waits for.
pub proof fn law_scan_keeps_its_number<T>(list: SearchView<T>, scan: u64, event: ScanEvent<T>)
    ensures
        list.scanned(scan, event).0.scan == list.scan,
{
}

/// A scan stays abandoned through every later query: `count` queries on, the list waits for a scan
/// of another number.
pub proof fn law_abandoned_scan_stays_abandoned<T>(
    list: SearchView<T>,
    later: SearchView<T>,
    count: nat,
    event: ScanEvent<T>,
)
    requires
        0 < count <= u64::MAX,
        later.scan == runs_after(list.scan, count),
    ensures
        later.scanned(list.scan, event) == (later, ScanAction::Stop),
{
    law_run_numbers_do_not_repeat(list.scan, count);
}

/// Opening a match puts the cursor on the row where it was found.
pub proof fn law_opening_lands_on_the_match<T>(
    file: ProjectFile,
    found: FoundRange<T>,
    row: SearchMatch<T>,
)
    requires
        countable(found),
        row_for(file, found, row),
    ensures
        row.line_number > 0,
        row.line_number - 1 == found.start_row,
        row.path@ == file.path@,
{
}

/// A row's highlight can be drawn on its text, which is short, and as long as the stretch of the
/// file that it was taken from.
pub proof fn law_row_can_be_drawn<T>(
    file: ProjectFile,
    found: FoundRange<T>,
    row: SearchMatch<T>,
)
    requires
        row_for(file, found, row),
    ensures
        ({
            let text = encode_utf8(row.line_text@);
            &&& row.highlight.start <= row.highlight.end <= text.len()
            &&& is_char_boundary(text, row.highlight.start as int)
            &&& is_char_boundary(text, row.highlight.end as int)
            &&& row.buffer_range.end - row.buffer_range.start == text.len()
            &&& text.len() <= MAX_ROW_TEXT_LEN
        }),
{
    law_highlight_is_usable(found.line@, found.start_column as int, end_in_row(found));
    law_row_text_is_short(found.line@, found.start_column as int, end_in_row(found));
}

/// Highlighted stretches follow each other without overlapping, and end within the line.
pub proof fn law_highlights_do_not_overlap<H>(chunks: Seq<Chunk<H>>)
    ensures
        forall|i: int|
            0 <= i < spans_of(chunks).len() ==> {
                &&& 0 <= (#[trigger] spans_of(chunks)[i]).start
                &&& spans_of(chunks)[i].start <= spans_of(chunks)[i].end
                &&& spans_of(chunks)[i].end <= total_len(chunks)
            },
        forall|i: int, j: int|
            0 <= i < j < spans_of(chunks).len() ==> (#[trigger] spans_of(chunks)[i]).end <= (
            #[trigger] spans_of(chunks)[j]).start,
    decreases chunks.len(),
{
    if chunks.len() > 0 {
        let front = chunks.drop_last();
        let before = spans_of(front);
        let after = spans_of(chunks);
        law_highlights_do_not_overlap(front);
        assert forall|i: int| 0 <= i < after.len() implies {
            &&& 0 <= (#[trigger] after[i]).start
            &&& after[i].start <= after[i].end
            &&& after[i].end <= total_len(chunks)
        } by {
            if i < before.len() {
                assert(after[i] == before[i]);
            }
        }
        assert forall|i: int, j: int| 0 <= i < j < after.len() implies (#[trigger] after[i]).end
            <= (#[trigger] after[j]).start by {
            assert(after[i] == before[i]);
            if j < before.len() {
                assert(after[j] == before[j]);
            }
        }
    }
}

/// Toggling an option twice changes nothing, and toggling it once changes that option alone.
pub proof fn law_options_toggle(options: SearchOptions, option: SearchOption, other: SearchOption)
    ensures
        options.flipped(option).flipped(option) == options,
        options.flipped(option).has(other) == if other == option {
            !options.has(other)
        } else {
            options.has(other)
        },
{
}

/// Pressing an option turns round what the search reads under the option's own name, and leaves
/// everything else that it reads as it was. An option is on exactly where the search reads so.
pub proof fn law_options_are_read_by_name(options: SearchOptions, option: SearchOption)
    ensures
        options.flipped(option).case_sensitive == (options.case_sensitive != (option
            == SearchOption::CaseSensitive)),
        options.flipped(option).whole_word == (options.whole_word != (option
            == SearchOption::WholeWord)),
        options.flipped(option).regex == (options.regex != (option == SearchOption::Regex)),
        options.flipped(option).ignored == (options.ignored != (option == SearchOption::Ignored)),
        options.has(SearchOption::CaseSensitive) == options.case_sensitive,
        options.has(SearchOption::WholeWord) == options.whole_word,
        options.has(SearchOption::Regex) == options.regex,
        options.has(SearchOption::Ignored) == options.ignored,
        !SearchOptions::none().case_sensitive,
        !SearchOptions::none().whole_word,
        !SearchOptions::none().regex,
        !SearchOptions::none().ignored,
{
}

/// A row is for the match it was made from: it names the match's file and the line it starts in,
/// counted from one, keeps what finds it again, and its text is the stretch of that line which it
/// says it came from.
pub proof fn law_row_is_for_its_match<T>(
    file: ProjectFile,
    found: FoundRange<T>,
    row: SearchMatch<T>,
)
    requires
        row_for(file, found, row),
    ensures
        row.path.worktree_id == file.path.worktree_id,
        row.path.path@ == file.path.path@,
        row.file_name is Some <==> file.file_name is Some,
        file.file_name matches Some(name) ==> row.file_name->0@ == name@,
        row.parent is Some <==> file.parent is Some,
        file.parent matches Some(parent) ==> row.parent->0@ == parent@,
        row.line_number == found.start_row + 1,
        row.match_range == found.match_range,
        row.source == found.source,
        found.line_offset <= row.buffer_range.start <= row.buffer_range.end,
        row.buffer_range.end <= found.line_offset + encode_utf8(found.line@).len(),
        encode_utf8(row.line_text@) == encode_utf8(found.line@).subrange(
            row.buffer_range.start - found.line_offset,
            row.buffer_range.end - found.line_offset,
        ),
{
    law_highlight_is_usable(found.line@, found.start_column as int, end_in_row(found));
}

/// The match is what a row highlights: where a match in one row is shown, the highlighted stretch
/// lies in the file exactly where the match does; one that goes on into further rows is
/// highlighted to the end of its first.
pub proof fn law_row_highlights_its_match<T>(
    file: ProjectFile,
    found: FoundRange<T>,
    row: SearchMatch<T>,
)
    requires
        row_for(file, found, row),
        indentation(found.line@) <= found.start_column <= encode_utf8(found.line@).len(),
        is_char_boundary(encode_utf8(found.line@), found.start_column as int),
    ensures
        ({
            let bytes = encode_utf8(found.line@);
            let shown_from = row.buffer_range.start - found.line_offset;
            &&& found.start_row == found.end_row && found.start_column <= found.end_column
                <= bytes.len() && is_char_boundary(bytes, found.end_column as int) && (
            found.end_column - indentation(found.line@) <= MAX_ROW_TEXT_LEN || found.end_column
                - found.start_column <= MAX_ROW_TEXT_LEN - CONTEXT_BEFORE_MATCH - 3) ==> {
                &&& shown_from + row.highlight.start == found.start_column
                &&& shown_from + row.highlight.end == found.end_column
            }
            &&& found.start_row != found.end_row && bytes.len() - indentation(found.line@)
                <= MAX_ROW_TEXT_LEN ==> {
                &&& shown_from + row.highlight.start == found.start_column
                &&& shown_from + row.highlight.end == bytes.len()
            }
        }),
{
    let bytes = encode_utf8(found.line@);
    vstd::utf8::encode_utf8_valid_utf8(found.line@);
    vstd::utf8::is_char_boundary_start_end_of_seq(bytes);
    if found.start_row == found.end_row && found.start_column <= found.end_column <= bytes.len()
        && is_char_boundary(bytes, found.end_column as int) && (found.end_column - indentation(
        found.line@,
    ) <= MAX_ROW_TEXT_LEN || found.end_column - found.start_column <= MAX_ROW_TEXT_LEN
        - CONTEXT_BEFORE_MATCH - 3) {
        law_match_is_shown(found.line@, found.start_column as int, found.end_column as int);
    }
    if found.start_row != found.end_row && bytes.len() - indentation(found.line@)
        <= MAX_ROW_TEXT_LEN {
        law_match_is_shown(found.line@, found.start_column as int, bytes.len() as int);
    }
}

/// A new query starts over with the options and the preview as they are, and waits for a scan of
/// another number than before.
pub proof fn law_new_query_keeps_the_options<T>(list: SearchView<T>, for_query: bool)
    ensures
        ({
            let now = list.queried(for_query);
            &&& now.options == list.options
            &&& now.preview_visible == list.preview_visible
            &&& now.scan != list.scan
            &&& now.is_searching <==> for_query
            &&& now.matches.len() == 0
            &&& now.selected == 0
        }),
{
}

/// A batch adds what it found behind what is listed, up to the bound, and the scan goes on exactly
/// while there is room. Waiting out the debounce changes nothing and goes on. A scan that was
/// rejected or has ended adds nothing and stops. The selection, the options, the preview and the
/// scan's number are never touched.
pub proof fn law_scan_fills_the_list<T>(list: SearchView<T>, event: ScanEvent<T>)
    requires
        list.matches.len() <= MAX_MATCHES,
    ensures
        ({
            let (now, action) = list.scanned(list.scan, event);
            &&& now.selected == list.selected
            &&& now.options == list.options
            &&& now.preview_visible == list.preview_visible
            &&& now.scan == list.scan
            &&& event matches ScanEvent::Batch(found) ==> {
                &&& now.matches.is_prefix_of(list.matches + found@)
                &&& now.matches.len() == if list.matches.len() + found@.len() < MAX_MATCHES {
                    list.matches.len() + found@.len()
                } else {
                    MAX_MATCHES as nat
                }
                &&& action == ScanAction::Await <==> now.matches.len() < MAX_MATCHES
                &&& now.is_searching == (list.is_searching && action == ScanAction::Await)
            }
            &&& event is DebounceOver ==> now == list && action == ScanAction::Await
            &&& event is Rejected || event is Ended ==> {
                &&& now.matches == list.matches
                &&& !now.is_searching
                &&& action == ScanAction::Stop
            }
        }),
{
    if let ScanEvent::Batch(found) = event {
        law_matches_are_bounded(list, found@);
    }
}

/// The footer counts the matches and the different files they lie in, and marks both as lower
/// bounds exactly where the list is full.
pub proof fn law_footer_counts<T>(list: SearchView<T>)
    ensures
        list.matches.len() < MAX_MATCHES ==> list.summary() == decimal(list.matches.len())
            + " matches in "@ + decimal(files_of(list.matches).len()) + " files"@,
        list.matches.len() >= MAX_MATCHES ==> list.summary() == decimal(list.matches.len()) + "+"@
            + " matches in "@ + decimal(files_of(list.matches).len()) + "+"@ + " files"@,
{
    reveal_strlit("");
    let count = decimal(list.matches.len());
    let files = decimal(files_of(list.matches).len());
    if list.matches.len() < MAX_MATCHES {
        assert(count + ""@ =~= count);
        assert(count + " matches in "@ + files + ""@ =~= count + " matches in "@ + files);
    }
}

/// A file goes by its name, and by nothing where it has none.
pub proof fn law_name_or_nothing(name: String)
    ensures
        name_or_empty(Some(name)) == name@,
        name_or_empty(None).len() == 0,
{
    reveal_strlit("");
}

/// Pieces of a line are highlighted where they lie: a piece goes from the end of all the pieces
/// before it for as long as it is, in its own style, and one without a style is left out. What
/// follows changes nothing before it.
pub proof fn law_pieces_are_highlighted_in_place<H>(chunks: Seq<Chunk<H>>, next: Chunk<H>)
    ensures
        ({
            let before = spans_of(chunks);
            let after = spans_of(chunks.push(next));
            &&& before.is_prefix_of(after)
            &&& after.len() == before.len() + if next.highlight is Some {
                1nat
            } else {
                0nat
            }
            &&& next.highlight matches Some(highlight) ==> {
                &&& after.last().start == total_len(chunks)
                &&& after.last().end - after.last().start == next.len
                &&& after.last().highlight == highlight
            }
            &&& total_len(chunks.push(next)) == total_len(chunks) + next.len
        }),
        spans_of(Seq::<Chunk<H>>::empty()).len() == 0,
        total_len(Seq::<Chunk<H>>::empty()) == 0,
{
    let longer = chunks.push(next);
    assert(longer.drop_last() =~= chunks);
    assert(longer.last() == next);
    assert(spans_of(chunks) =~= spans_of(longer).subrange(0, spans_of(chunks).len() as int));
}

/// A match can be listed wherever a row follows its own and the end of its line can be counted.
pub proof fn law_what_can_be_listed<T>(found: FoundRange<T>)
    ensures
        countable(found) <==> found.start_row + 1 <= u32::MAX && found.line_offset + encode_utf8(
            found.line@,
        ).len() <= usize::MAX,
{
}

/// A match ends in its row where it says so, and at the end of the row where it goes on behind it.
pub proof fn law_where_a_match_ends<T>(found: FoundRange<T>)
    ensures
        found.end_row == found.start_row ==> end_in_row(found) == found.end_column,
        found.end_row != found.start_row ==> end_in_row(found) == encode_utf8(found.line@).len(),
{
}

/// Highlighted stretches are taken as they are, one for each.
pub proof fn law_highlights_as_values<H>(spans: Seq<(Range<usize>, H)>, i: int)
    requires
        0 <= i < spans.len(),
    ensures
        span_views(spans).len() == spans.len(),
        span_views(spans)[i].start == spans[i].0.start,
        span_views(spans)[i].end == spans[i].0.end,
        span_views(spans)[i].highlight == spans[i].1,
{
}

} // verus!
