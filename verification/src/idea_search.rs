//! The "find in files" modal: a list of matches with a preview of the selected one.

use std::ops::Range;

use vstd::prelude::*;
use vstd::utf8::encode_utf8;

use crate::changes::{ProjectFile, ProjectPath};
use crate::preview::{copy_text, directory_label, directory_text, optional_text, PathView};
use crate::row_text::{byte_len, byte_slice, render_window, row_window};
use crate::runs::{next_run, run_after};
use crate::text::{decimal, decimal_text};

verus! {

/// Waited out before a search starts, so typing does not queue a scan per keystroke. In
/// milliseconds.
pub const SEARCH_DEBOUNCE_MILLIS: u64 = 150;

/// Results are drained in batches so the list fills in while the scan is still running.
pub const RESULT_BATCH_SIZE: usize = 256;

/// Upper bound on collected matches, so a query like "e" cannot exhaust memory.
pub const MAX_MATCHES: usize = 10_000;

/// An option of a search.
#[derive(Clone, Copy, Debug, PartialEq, Eq, Structural)]
pub enum SearchOption {
    CaseSensitive,
    WholeWord,
    Regex,
    Ignored,
}

/// Options offered as toggles, in the order they appear next to the query input.
pub fn toggleable_options() -> (options: [SearchOption; 4])
    ensures
        options@ == seq![
            SearchOption::CaseSensitive,
            SearchOption::WholeWord,
            SearchOption::Regex,
            SearchOption::Ignored,
        ],
{
    let options = [
        SearchOption::CaseSensitive,
        SearchOption::WholeWord,
        SearchOption::Regex,
        SearchOption::Ignored,
    ];
    proof {
        assert(options@ =~= seq![options@[0], options@[1], options@[2], options@[3]]);
    }
    options
}

/// Which options a search runs with.
#[derive(Clone, Copy, Debug, PartialEq, Eq, Structural)]
pub struct SearchOptions {
    pub case_sensitive: bool,
    pub whole_word: bool,
    pub regex: bool,
    /// Whether ignored files are searched too.
    pub ignored: bool,
}

impl SearchOptions {
    /// Every option off.
    pub open spec fn none() -> SearchOptions {
        SearchOptions { case_sensitive: false, whole_word: false, regex: false, ignored: false }
    }

    /// Whether `option` is on.
    pub open spec fn has(self, option: SearchOption) -> bool {
        match option {
            SearchOption::CaseSensitive => self.case_sensitive,
            SearchOption::WholeWord => self.whole_word,
            SearchOption::Regex => self.regex,
            SearchOption::Ignored => self.ignored,
        }
    }

    /// The options with `option` the other way round.
    pub open spec fn flipped(self, option: SearchOption) -> SearchOptions {
        match option {
            SearchOption::CaseSensitive => SearchOptions {
                case_sensitive: !self.case_sensitive,
                ..self
            },
            SearchOption::WholeWord => SearchOptions { whole_word: !self.whole_word, ..self },
            SearchOption::Regex => SearchOptions { regex: !self.regex, ..self },
            SearchOption::Ignored => SearchOptions { ignored: !self.ignored, ..self },
        }
    }

    /// Whether `option` is on.
    pub fn contains(&self, option: SearchOption) -> (on: bool)
        ensures
            on == self.has(option),
            option == SearchOption::CaseSensitive ==> on == self.case_sensitive,
            option == SearchOption::WholeWord ==> on == self.whole_word,
            option == SearchOption::Regex ==> on == self.regex,
            option == SearchOption::Ignored ==> on == self.ignored,
    {
        match option {
            SearchOption::CaseSensitive => self.case_sensitive,
            SearchOption::WholeWord => self.whole_word,
            SearchOption::Regex => self.regex,
            SearchOption::Ignored => self.ignored,
        }
    }

    /// Turns an option on or off.
    pub fn toggle(&mut self, option: SearchOption)
        ensures
            *final(self) == old(self).flipped(option),
            final(self).case_sensitive == (old(self).case_sensitive != (option
                == SearchOption::CaseSensitive)),
            final(self).whole_word == (old(self).whole_word != (option
                == SearchOption::WholeWord)),
            final(self).regex == (old(self).regex != (option == SearchOption::Regex)),
            final(self).ignored == (old(self).ignored != (option == SearchOption::Ignored)),
    {
        match option {
            SearchOption::CaseSensitive => {
                self.case_sensitive = !self.case_sensitive;
            },
            SearchOption::WholeWord => {
                self.whole_word = !self.whole_word;
            },
            SearchOption::Regex => {
                self.regex = !self.regex;
            },
            SearchOption::Ignored => {
                self.ignored = !self.ignored;
            },
        }
    }
}

/// A search to run.
pub struct SearchRequest {
    /// The number of the scan, to report back under.
    pub scan: u64,
    pub query: String,
    pub options: SearchOptions,
}

/// A stretch of a file that matches, as a search reports it.
pub struct FoundRange<T> {
    /// Where the match starts: its row, and the byte offset in that row.
    pub start_row: u32,
    pub start_column: u32,
    /// Where it ends. A match can span rows.
    pub end_row: u32,
    pub end_column: u32,
    /// The text of the row where the match starts.
    pub line: String,
    /// Where that row starts in the file.
    pub line_offset: usize,
    /// The match in bytes of the file.
    pub match_range: Range<usize>,
    /// What the editor needs to find the match again.
    pub source: T,
}

/// One row: a single match, with enough context to render it and to open it later.
pub struct SearchMatch<T> {
    pub path: ProjectPath,
    /// The last component of the path, `None` for the root of a worktree.
    pub file_name: Option<String>,
    /// The directory holding the file, written for display.
    pub parent: Option<String>,
    pub line_number: u32,
    /// The matched line, trimmed of indentation and windowed around the match, so a minified
    /// file does not put a megabyte in a row.
    pub line_text: String,
    /// Byte range of the match within `line_text`.
    pub highlight: Range<usize>,
    /// Where `line_text` came from in the file, so syntax highlighting can be gathered for
    /// visible rows only rather than for every match found.
    pub buffer_range: Range<usize>,
    /// The match itself, for the preview to highlight and scroll to.
    pub match_range: Range<usize>,
    pub source: T,
}

/// Where a match ends in the row that it starts in. One that spans rows runs to the end of it.
pub open spec fn end_in_row<T>(found: FoundRange<T>) -> int {
    if found.end_row == found.start_row {
        found.end_column as int
    } else {
        encode_utf8(found.line@).len() as int
    }
}

/// Whether `row` is the row that `found`, a match in `file`, becomes.
pub open spec fn row_for<T>(file: ProjectFile, found: FoundRange<T>, row: SearchMatch<T>) -> bool {
    let window = row_window(found.line@, found.start_column as int, end_in_row(found));
    &&& row.path@ == file.path@
    &&& optional_text(row.file_name) == optional_text(file.file_name)
    &&& optional_text(row.parent) == optional_text(file.parent)
    &&& row.line_number == found.start_row + 1
    &&& encode_utf8(row.line_text@) == encode_utf8(found.line@).subrange(window.start, window.end)
    &&& row.highlight.start == window.highlight_start
    &&& row.highlight.end == window.highlight_end
    &&& row.buffer_range.start == found.line_offset + window.start
    &&& row.buffer_range.end == found.line_offset + window.end
    &&& row.match_range == found.match_range
    &&& row.source == found.source
}

/// Whether a match lies where a file can have one: there is a row after it, and the end of its
/// line can be counted.
pub open spec fn countable<T>(found: FoundRange<T>) -> bool {
    &&& found.start_row < u32::MAX
    &&& found.line_offset + encode_utf8(found.line@).len() <= usize::MAX
}

/// The row that `found`, a match in `file`, becomes.
fn search_match<T>(file: &ProjectFile, found: FoundRange<T>) -> (row: SearchMatch<T>)
    requires
        countable(found),
    ensures
        row_for(*file, found, row),
{
    let match_start = found.start_column as usize;
    let match_end: usize = if found.end_row == found.start_row {
        found.end_column as usize
    } else {
        byte_len(found.line.as_str())
    };
    let (window, highlight) = render_window(found.line.as_str(), match_start..match_end);
    let buffer_range = found.line_offset + window.start..found.line_offset + window.end;
    let line_text = byte_slice(found.line.as_str(), window);
    SearchMatch {
        path: file.path.duplicate(),
        file_name: copy_text(&file.file_name),
        parent: copy_text(&file.parent),
        line_number: found.start_row + 1,
        line_text,
        highlight,
        buffer_range,
        match_range: found.match_range,
        source: found.source,
    }
}

/// Turns the ranges a search reports in one file into rows, keeping each line's text so rendering
/// does not have to touch the file. Text that belongs to no file has no rows.
pub fn collect_matches<T>(
    file: Option<&ProjectFile>,
    ranges: Vec<FoundRange<T>>,
) -> (rows: Vec<SearchMatch<T>>)
    requires
        file is Some ==> forall|i: int|
            0 <= i < ranges@.len() ==> countable(#[trigger] ranges@[i]),
    ensures
        file is None ==> rows@.len() == 0,
        file is Some ==> {
            &&& rows@.len() == ranges@.len()
            &&& forall|i: int|
                0 <= i < rows@.len() ==> row_for(*(file->0), ranges@[i], #[trigger] rows@[i])
        },
{
    let mut rows: Vec<SearchMatch<T>> = Vec::new();
    if let Some(file) = file {
        let ghost all = ranges@;
        for found in it: ranges
            invariant
                it.seq() == all,
                forall|i: int| 0 <= i < all.len() ==> countable(#[trigger] all[i]),
                rows@.len() == it.index(),
                forall|i: int|
                    0 <= i < rows@.len() ==> row_for(*file, all[i], #[trigger] rows@[i]),
        {
            assert(found == all[it.index() as int]);
            rows.push(search_match(file, found));
        }
    }
    rows
}

/// A piece of a line in one style.
pub struct Chunk<H> {
    /// Its length in bytes.
    pub len: usize,
    pub highlight: Option<H>,
}

/// A highlighted stretch, as a value.
pub struct Span<H> {
    pub start: int,
    pub end: int,
    pub highlight: H,
}

/// How many bytes `chunks` take up.
pub open spec fn total_len<H>(chunks: Seq<Chunk<H>>) -> nat
    decreases chunks.len(),
{
    if chunks.len() == 0 {
        0
    } else {
        total_len(chunks.drop_last()) + chunks.last().len as nat
    }
}

/// The highlighted stretches of `chunks`, each where its chunk lies.
pub open spec fn spans_of<H>(chunks: Seq<Chunk<H>>) -> Seq<Span<H>>
    decreases chunks.len(),
{
    if chunks.len() == 0 {
        Seq::empty()
    } else {
        let before = spans_of(chunks.drop_last());
        match chunks.last().highlight {
            Some(highlight) => before.push(
                Span {
                    start: total_len(chunks.drop_last()) as int,
                    end: total_len(chunks) as int,
                    highlight,
                },
            ),
            None => before,
        }
    }
}

/// Highlighted stretches, as values.
pub open spec fn span_views<H>(spans: Seq<(Range<usize>, H)>) -> Seq<Span<H>> {
    spans.map_values(
        |span: (Range<usize>, H)|
            Span { start: span.0.start as int, end: span.0.end as int, highlight: span.1 },
    )
}

proof fn lemma_total_len_grows<H>(chunks: Seq<Chunk<H>>, count: int)
    requires
        0 <= count <= chunks.len(),
    ensures
        total_len(chunks.take(count)) <= total_len(chunks),
    decreases chunks.len() - count,
{
    if count == chunks.len() {
        assert(chunks.take(count) =~= chunks);
    } else {
        lemma_total_len_grows(chunks, count + 1);
        assert(chunks.take(count + 1).drop_last() =~= chunks.take(count));
    }
}

/// Highlight spans for a line that comes in `chunks`, as byte ranges relative to its start. Ids
/// rather than styles, so a theme change restyles existing rows.
pub fn collect_syntax<H>(chunks: Vec<Chunk<H>>) -> (highlights: Vec<(Range<usize>, H)>)
    requires
        total_len(chunks@) <= usize::MAX,
    ensures
        span_views(highlights@) == spans_of(chunks@),
{
    let ghost all = chunks@;
    let mut highlights: Vec<(Range<usize>, H)> = Vec::new();
    let mut offset: usize = 0;
    proof {
        assert(span_views(highlights@) =~= spans_of(all.take(0)));
        assert(total_len(all.take(0)) == 0);
    }
    for chunk in it: chunks
        invariant
            it.seq() == all,
            total_len(all) <= usize::MAX,
            offset == total_len(all.take(it.index() as int)),
            span_views(highlights@) == spans_of(all.take(it.index() as int)),
    {
        let ghost i = it.index() as int;
        let ghost before = span_views(highlights@);
        proof {
            assert(all.take(i + 1).drop_last() =~= all.take(i));
            assert(all.take(i + 1).last() == all[i]);
            assert(chunk == all[i]);
            lemma_total_len_grows(all, i + 1);
        }
        let chunk_end = offset + chunk.len;
        if let Some(highlight) = chunk.highlight {
            highlights.push((offset..chunk_end, highlight));
            proof {
                assert(span_views(highlights@) =~= before.push(
                    Span { start: offset as int, end: chunk_end as int, highlight },
                ));
            }
        }
        offset = chunk_end;
    }
    proof {
        assert(all.take(all.len() as int) =~= all);
    }
    highlights
}

/// The files that `matches` lie in, each once, in the order they first appear.
pub open spec fn files_of<T>(matches: Seq<SearchMatch<T>>) -> Seq<PathView>
    decreases matches.len(),
{
    if matches.len() == 0 {
        Seq::empty()
    } else {
        let before = files_of(matches.drop_last());
        if before.contains(matches.last().path@) {
            before
        } else {
            before.push(matches.last().path@)
        }
    }
}

/// The values of a list of paths.
pub open spec fn path_views(paths: Seq<ProjectPath>) -> Seq<PathView> {
    paths.map_values(|path: ProjectPath| path@)
}

/// What a scan comes to, as it runs in the background.
pub enum ScanEvent<T> {
    /// The query cannot be searched for. An incomplete regex is expected while typing, so that is
    /// not an error worth reporting; there is just no scan to run.
    Rejected,
    /// Nothing was typed for long enough.
    DebounceOver,
    /// More matches were found.
    Batch(Vec<SearchMatch<T>>),
    /// There is nothing more to find.
    Ended,
}

/// What a scan does next.
#[derive(Clone, Copy, Debug, PartialEq, Eq, Structural)]
pub enum ScanAction {
    /// Search on, and wait for the next batch.
    Await,
    Stop,
}

/// What the search modal lists, as a value.
pub struct SearchView<T> {
    pub matches: Seq<SearchMatch<T>>,
    pub selected: int,
    pub options: SearchOptions,
    pub is_searching: bool,
    pub preview_visible: bool,
    pub scan: u64,
}

impl<T> SearchView<T> {
    /// The list started over, for a query or for none. Whatever scan was running is abandoned.
    pub open spec fn queried(self, for_query: bool) -> SearchView<T> {
        SearchView {
            matches: Seq::empty(),
            selected: 0,
            is_searching: for_query,
            scan: run_after(self.scan),
            ..self
        }
    }

    /// The list after `event` of the scan with the number `scan`, and what that scan does next.
    /// One that has been abandoned stops, and leaves the list alone.
    pub open spec fn scanned(self, scan: u64, event: ScanEvent<T>) -> (SearchView<T>, ScanAction) {
        if scan == self.scan {
            self.stepped(event)
        } else {
            (self, ScanAction::Stop)
        }
    }

    /// The list with as many of `found` added as there is room for.
    pub open spec fn accepting(self, found: Seq<SearchMatch<T>>) -> SearchView<T> {
        let room = MAX_MATCHES - self.matches.len();
        SearchView {
            matches: if found.len() <= room {
                self.matches + found
            } else {
                self.matches + found.take(room)
            },
            ..self
        }
    }

    /// The list once no scan is running.
    pub open spec fn settled(self) -> SearchView<T> {
        SearchView { is_searching: false, ..self }
    }

    /// The list after `event` of the scan that is running, and what that scan does next. It stops
    /// when there is nothing more to find, or no room for it.
    pub open spec fn stepped(self, event: ScanEvent<T>) -> (SearchView<T>, ScanAction) {
        match event {
            ScanEvent::Rejected => (self.settled(), ScanAction::Stop),
            ScanEvent::DebounceOver => (self, ScanAction::Await),
            ScanEvent::Batch(found) => {
                let after = self.accepting(found@);
                if after.matches.len() < MAX_MATCHES {
                    (after, ScanAction::Await)
                } else {
                    (after.settled(), ScanAction::Stop)
                }
            },
            ScanEvent::Ended => (self.settled(), ScanAction::Stop),
        }
    }

    /// What the footer says of the totals. A capped scan stopped early, so both are lower bounds.
    pub open spec fn summary(self) -> Seq<char> {
        let capped = if self.matches.len() >= MAX_MATCHES {
            "+"@
        } else {
            ""@
        };
        decimal(self.matches.len()) + capped + " matches in "@ + decimal(
            files_of(self.matches).len(),
        ) + capped + " files"@
    }
}

/// The name of a file, empty where it has none.
pub open spec fn name_or_empty(name: Option<String>) -> Seq<char> {
    match name {
        Some(name) => name@,
        None => ""@,
    }
}

fn copy_name(name: &Option<String>) -> (text: String)
    ensures
        text@ == name_or_empty(*name),
{
    match name {
        Some(name) => name.clone(),
        None => "".to_owned(),
    }
}

pub struct IdeaSearchDelegate<T> {
    matches: Vec<SearchMatch<T>>,
    /// Distinct files among `matches`, for the footer summary.
    unique_files: Vec<ProjectPath>,
    selected_index: usize,
    search_options: SearchOptions,
    /// Whether a scan is still running, so the summary can distinguish "no results yet" from
    /// "no results".
    is_searching: bool,
    /// Mirrors the picker's preview visibility, which it does not expose.
    preview_visible: bool,
    /// The number of the last scan. A search that is abandoned loses its number, so a scan already
    /// running stops instead of filling the list with results for a query the user has moved on
    /// from.
    scan: u64,
}

impl<T> View for IdeaSearchDelegate<T> {
    type V = SearchView<T>;

    closed spec fn view(&self) -> SearchView<T> {
        SearchView {
            matches: self.matches@,
            selected: self.selected_index as int,
            options: self.search_options,
            is_searching: self.is_searching,
            preview_visible: self.preview_visible,
            scan: self.scan,
        }
    }
}

impl<T> IdeaSearchDelegate<T> {
    /// Whether the distinct files at hand are those of the matches.
    pub closed spec fn files_are_counted(&self) -> bool {
        path_views(self.unique_files@) == files_of(self.matches@)
    }

    /// Holds between any two calls: the files are counted, and the matches are bounded.
    pub open spec fn wf(&self) -> bool {
        &&& self.files_are_counted()
        &&& self@.matches.len() <= MAX_MATCHES
    }

    /// Nothing searched for yet.
    pub fn new() -> (delegate: Self)
        ensures
            delegate.wf(),
            delegate@ == (SearchView {
                matches: Seq::<SearchMatch<T>>::empty(),
                selected: 0,
                options: SearchOptions::none(),
                is_searching: false,
                preview_visible: true,
                scan: 0,
            }),
    {
        let delegate = IdeaSearchDelegate {
            matches: Vec::new(),
            unique_files: Vec::new(),
            selected_index: 0,
            search_options: SearchOptions {
                case_sensitive: false,
                whole_word: false,
                regex: false,
                ignored: false,
            },
            is_searching: false,
            preview_visible: true,
            scan: 0,
        };
        proof {
            assert(path_views(delegate.unique_files@) =~= files_of(delegate.matches@));
        }
        delegate
    }

    /// Starts over with `query`, abandoning whatever scan is running. Returns the search to run,
    /// unless there is nothing to search for.
    pub fn update_matches(&mut self, query: &str) -> (request: Option<SearchRequest>)
        ensures
            final(self).wf(),
            final(self)@ == old(self)@.queried(query@.len() > 0),
            request is Some <==> query@.len() > 0,
            request matches Some(request) ==> {
                &&& request.scan == final(self)@.scan
                &&& request.query@ == query@
                &&& request.options == old(self)@.options
            },
    {
        self.cancel_running_search();
        self.matches = Vec::new();
        self.unique_files = Vec::new();
        self.selected_index = 0;
        self.is_searching = false;
        proof {
            assert(path_views(self.unique_files@) =~= files_of(self.matches@));
        }
        if query.is_empty() {
            return None;
        }
        self.is_searching = true;
        Some(
            SearchRequest {
                scan: self.scan,
                query: query.to_owned(),
                options: self.search_options,
            },
        )
    }

    /// Abandons whatever scan is running, as when the modal is closed.
    pub fn cancel_running_search(&mut self)
        ensures
            final(self).files_are_counted() == old(self).files_are_counted(),
            final(self)@ == (SearchView { scan: run_after(old(self)@.scan), ..old(self)@ }),
    {
        self.scan = next_run(self.scan);
    }

    /// Whether the scan with the number `scan` is the one that the list waits for.
    pub fn is_current(&self, scan: u64) -> (current: bool)
        ensures
            current == (scan == self@.scan),
    {
        scan == self.scan
    }

    /// Whether `path` is among the files counted so far.
    fn counts(&self, path: &ProjectPath) -> (found: bool)
        ensures
            found == path_views(self.unique_files@).contains(path@),
    {
        let ghost views = path_views(self.unique_files@);
        let mut i: usize = self.unique_files.len();
        // From the back: matches come file by file, so the file is most often the last one.
        while i > 0
            invariant
                views == path_views(self.unique_files@),
                i <= self.unique_files.len(),
                forall|k: int| i <= k < views.len() ==> views[k] != path@,
            decreases i,
        {
            i -= 1;
            assert(views[i as int] == self.unique_files@[i as int]@);
            if self.unique_files[i].same_as(path) {
                return true;
            }
        }
        false
    }

    /// Adds the matches of one batch, as many as there is room for. Returns whether there is
    /// room for more.
    pub fn accept(&mut self, found: Vec<SearchMatch<T>>) -> (still_running: bool)
        requires
            old(self).wf(),
        ensures
            final(self).wf(),
            final(self)@ == old(self)@.accepting(found@),
            still_running == (final(self)@.matches.len() < MAX_MATCHES),
    {
        let ghost before = self@;
        let ghost all = found@;
        proof {
            assert(before.accepting(all.take(0)).matches =~= before.matches);
        }
        for search_match in it: found
            invariant
                it.seq() == all,
                before.matches.len() <= MAX_MATCHES,
                self.wf(),
                self@ == before.accepting(all.take(it.index() as int)),
        {
            let ghost i = it.index() as int;
            let ghost matches = self.matches@;
            proof {
                assert(search_match == all[i]);
                assert(all.take(i + 1).drop_last() =~= all.take(i));
            }
            if self.matches.len() < MAX_MATCHES {
                if !self.counts(&search_match.path) {
                    let ghost files = path_views(self.unique_files@);
                    self.unique_files.push(search_match.path.duplicate());
                    proof {
                        assert(path_views(self.unique_files@) =~= files.push(search_match.path@));
                    }
                }
                self.matches.push(search_match);
                proof {
                    assert(self.matches@.drop_last() =~= matches);
                    assert(self.matches@ =~= before.accepting(all.take(i + 1)).matches);
                }
            } else {
                proof {
                    assert(self.matches@ =~= before.accepting(all.take(i + 1)).matches);
                }
            }
        }
        proof {
            assert(all.take(all.len() as int) =~= all);
        }
        self.matches.len() < MAX_MATCHES
    }

    /// Takes in what the scan with the number `scan` came to, and says what it does next. A scan
    /// that was abandoned has already been replaced by a newer one, which the list belongs to: it
    /// stops, and leaves the list alone.
    pub fn scan_step(&mut self, scan: u64, event: ScanEvent<T>) -> (action: ScanAction)
        requires
            old(self).wf(),
        ensures
            final(self).wf(),
            (final(self)@, action) == old(self)@.scanned(scan, event),
    {
        if scan != self.scan {
            return ScanAction::Stop;
        }
        match event {
            ScanEvent::Rejected => {
                self.is_searching = false;
                ScanAction::Stop
            },
            ScanEvent::DebounceOver => ScanAction::Await,
            ScanEvent::Batch(found) => {
                if self.accept(found) {
                    ScanAction::Await
                } else {
                    self.is_searching = false;
                    ScanAction::Stop
                }
            },
            ScanEvent::Ended => {
                self.is_searching = false;
                ScanAction::Stop
            },
        }
    }

    /// Opens the selected match: which one that is, and the row to put the cursor on.
    pub fn open_selected(&self) -> (target: Option<(usize, u32)>)
        ensures
            target == if self@.selected < self@.matches.len() {
                let number = self@.matches[self@.selected].line_number;
                Some(
                    (
                        self@.selected as usize,
                        if number > 0 {
                            (number - 1) as u32
                        } else {
                            0
                        },
                    ),
                )
            } else {
                None
            },
    {
        if self.selected_index < self.matches.len() {
            let number = self.matches[self.selected_index].line_number;
            let row: u32 = if number > 0 {
                number - 1
            } else {
                0
            };
            Some((self.selected_index, row))
        } else {
            None
        }
    }

    /// A single click on the row at `index` previews its match, a double click opens it. Returns
    /// whether it is to be opened.
    pub fn click(&mut self, index: usize, clicks: usize) -> (opening: bool)
        requires
            old(self).wf(),
        ensures
            final(self).wf(),
            final(self)@ == (SearchView { selected: index as int, ..old(self)@ }),
            opening == (clicks >= 2),
    {
        self.selected_index = index;
        clicks >= 2
    }

    /// The match to preview, by position.
    pub fn preview_target(&self) -> (index: Option<usize>)
        ensures
            index == if self@.selected < self@.matches.len() {
                Some(self@.selected as usize)
            } else {
                None
            },
    {
        if self.selected_index < self.matches.len() {
            Some(self.selected_index)
        } else {
            None
        }
    }

    /// Turns a search option on or off.
    pub fn toggle_option(&mut self, option: SearchOption)
        requires
            old(self).wf(),
        ensures
            final(self).wf(),
            final(self)@ == (SearchView {
                options: old(self)@.options.flipped(option),
                ..old(self)@
            }),
    {
        self.search_options.toggle(option);
    }

    pub fn search_options(&self) -> (options: SearchOptions)
        ensures
            options == self@.options,
    {
        self.search_options
    }

    /// Only reports whether the layout is horizontal, so it cannot distinguish hidden from below.
    /// A switch to the side layout means the preview is visible.
    pub fn preview_layout_changed(&mut self, layout_is_horizontal: bool)
        requires
            old(self).wf(),
        ensures
            final(self).wf(),
            final(self)@ == (SearchView {
                preview_visible: old(self)@.preview_visible || layout_is_horizontal,
                ..old(self)@
            }),
    {
        if layout_is_horizontal {
            self.preview_visible = true;
        }
    }

    /// What the footer says of the totals. Nothing, while there are no matches.
    pub fn summary(&self) -> (summary: Option<String>)
        requires
            self.wf(),
        ensures
            summary is Some <==> self@.matches.len() > 0,
            summary matches Some(summary) ==> summary@ == self@.summary(),
    {
        if self.matches.len() == 0 {
            return None;
        }
        proof {
            assert(path_views(self.unique_files@).len() == self.unique_files@.len());
        }
        let capped = if self.matches.len() >= MAX_MATCHES {
            "+"
        } else {
            ""
        };
        Some(
            decimal_text(self.matches.len() as u64).concat(capped).concat(" matches in ").concat(
                decimal_text(self.unique_files.len() as u64).as_str(),
            ).concat(capped).concat(" files"),
        )
    }

    /// The name and the directory of the file that the selected match lies in, for the footer.
    pub fn location(&self) -> (location: Option<(String, String)>)
        ensures
            location is Some <==> self@.selected < self@.matches.len(),
            location matches Some(location) ==> {
                let selected = self@.matches[self@.selected];
                &&& location.0@ == name_or_empty(selected.file_name)
                &&& location.1@ == directory_label(optional_text(selected.parent))
            },
    {
        if self.selected_index < self.matches.len() {
            let selected = &self.matches[self.selected_index];
            Some((copy_name(&selected.file_name), directory_text(&selected.parent)))
        } else {
            None
        }
    }

    /// The location that the row at `index` shows behind its line.
    pub fn row_location(&self, index: usize) -> (label: Option<String>)
        ensures
            label is Some <==> index < self@.matches.len(),
            label matches Some(label) ==> label@ == name_or_empty(
                self@.matches[index as int].file_name,
            ) + ":"@ + decimal(self@.matches[index as int].line_number as nat),
    {
        if index < self.matches.len() {
            let row = &self.matches[index];
            Some(
                copy_name(&row.file_name).concat(":").concat(
                    decimal_text(row.line_number as u64).as_str(),
                ),
            )
        } else {
            None
        }
    }

    pub fn matches(&self) -> (matches: &Vec<SearchMatch<T>>)
        ensures
            matches@ == self@.matches,
    {
        &self.matches
    }

    pub fn match_count(&self) -> (count: usize)
        ensures
            count == self@.matches.len(),
    {
        self.matches.len()
    }

    pub fn selected_index(&self) -> (index: usize)
        ensures
            index == self@.selected,
    {
        self.selected_index
    }

    pub fn set_selected_index(&mut self, index: usize)
        requires
            old(self).wf(),
        ensures
            final(self).wf(),
            final(self)@ == (SearchView { selected: index as int, ..old(self)@ }),
    {
        self.selected_index = index;
    }

    pub fn is_searching(&self) -> (searching: bool)
        ensures
            searching == self@.is_searching,
    {
        self.is_searching
    }

    pub fn preview_visible(&self) -> (visible: bool)
        ensures
            visible == self@.preview_visible,
    {
        self.preview_visible
    }

    /// What pressing the preview's button asks of the picker. Only the below-the-list layout is
    /// offered, so this is on or off rather than a layout choice.
    pub fn preview_action(&self) -> (action: PreviewAction)
        ensures
            action == if self@.preview_visible {
                PreviewAction::Hide
            } else {
                PreviewAction::ShowBelow
            },
    {
        if self.preview_visible {
            PreviewAction::Hide
        } else {
            PreviewAction::ShowBelow
        }
    }
}

/// What the picker can be told to do with its preview.
#[derive(Clone, Copy, Debug, PartialEq, Eq, Structural)]
pub enum PreviewAction {
    ShowBelow,
    Hide,
}

pub struct IdeaSearch<T> {
    pub delegate: IdeaSearchDelegate<T>,
}

impl<T> IdeaSearch<T> {
    pub fn new() -> (modal: Self)
        ensures
            modal.delegate.wf(),
            modal.delegate@ == (SearchView {
                matches: Seq::<SearchMatch<T>>::empty(),
                selected: 0,
                options: SearchOptions::none(),
                is_searching: false,
                preview_visible: true,
                scan: 0,
            }),
    {
        IdeaSearch { delegate: IdeaSearchDelegate::new() }
    }

    /// First escape empties the query, second closes the modal. Returns whether this one is to
    /// empty the query.
    pub fn cancel(query: &str) -> (empty_query: bool)
        ensures
            empty_query == (query@.len() > 0),
    {
        !query.is_empty()
    }

    /// The picker owns preview visibility but does not expose it, so every action that changes it
    /// is mirrored.
    pub fn preview_toggled(&mut self)
        requires
            old(self).delegate.wf(),
        ensures
            final(self).delegate.wf(),
            final(self).delegate@ == (SearchView {
                preview_visible: !old(self).delegate@.preview_visible,
                ..old(self).delegate@
            }),
    {
        let visible = !self.delegate.preview_visible;
        self.set_preview_visible(visible);
    }

    pub fn preview_shown(&mut self)
        requires
            old(self).delegate.wf(),
        ensures
            final(self).delegate.wf(),
            final(self).delegate@ == (SearchView {
                preview_visible: true,
                ..old(self).delegate@
            }),
    {
        self.set_preview_visible(true);
    }

    pub fn preview_hidden(&mut self)
        requires
            old(self).delegate.wf(),
        ensures
            final(self).delegate.wf(),
            final(self).delegate@ == (SearchView {
                preview_visible: false,
                ..old(self).delegate@
            }),
    {
        self.set_preview_visible(false);
    }

    pub fn set_preview_visible(&mut self, visible: bool)
        requires
            old(self).delegate.wf(),
        ensures
            final(self).delegate.wf(),
            final(self).delegate@ == (SearchView {
                preview_visible: visible,
                ..old(self).delegate@
            }),
    {
        self.delegate.preview_visible = visible;
    }
}

} // verus!
