//! The search box of the process table: its text, its flags, the cursor in the
//! text and the outcome of the last parse.

use unicode_segmentation::GraphemeCursor;
use vstd::prelude::*;
use vstd::utf8::{encode_utf8, is_char_boundary};

verus! {

/// Whether byte offset `offset` of `text` lies between two characters, or at
/// either end.
pub open spec fn on_char_boundary(text: Seq<char>, offset: usize) -> bool {
    is_char_boundary(encode_utf8(text), offset as int)
}

/// The byte offset of the first grapheme cluster boundary of `text` behind byte
/// offset `offset`, as extended grapheme clusters are segmented when the segmenter
/// is handed the text from byte offset `start` on. `None` at the end of the text
/// or where the segmenter asks for text in front of `start`.
pub uninterp spec fn grapheme_after(text: Seq<char>, offset: usize, start: usize) -> Option<usize>;

/// The byte offset of the last grapheme cluster boundary of `text` in front of byte
/// offset `offset`, as extended grapheme clusters are segmented when the segmenter
/// is handed the text up to byte offset `end`. `None` at the start of the text.
pub uninterp spec fn grapheme_before(text: Seq<char>, offset: usize, end: usize) -> Option<usize>;

/// `GraphemeCursor::next_boundary` of `unicode-segmentation`, on a fresh cursor
/// for extended clusters that stands at `offset` and is handed `text[start..]`.
/// The result depends on the text and the two offsets alone. An incomplete answer
/// of the segmenter counts as no boundary. The segmenter steps over whole
/// characters, so a boundary it finds lies behind `offset`, between two characters
/// or at the end.
#[verifier::external_body]
fn next_boundary(text: &str, offset: usize, start: usize) -> (found: Option<usize>)
    requires
        start <= offset,
        on_char_boundary(text@, start),
        on_char_boundary(text@, offset),
    ensures
        found == grapheme_after(text@, offset, start),
        found matches Some(next) ==> offset < next && on_char_boundary(text@, next),
{
    GraphemeCursor::new(offset, text.len(), true).next_boundary(&text[start..], start).unwrap_or(
        None,
    )
}

/// `GraphemeCursor::prev_boundary` of `unicode-segmentation`, on a fresh cursor
/// for extended clusters that stands at `offset` and is handed `text[..end]`. The
/// result depends on the text and the two offsets alone. An incomplete answer of
/// the segmenter counts as no boundary. The segmenter steps back over whole
/// characters, so a boundary it finds lies in front of `offset`, between two
/// characters or at the start.
#[verifier::external_body]
fn prev_boundary(text: &str, offset: usize, end: usize) -> (found: Option<usize>)
    requires
        offset <= end,
        on_char_boundary(text@, end),
        on_char_boundary(text@, offset),
    ensures
        found == grapheme_before(text@, offset, end),
        found matches Some(previous) ==> previous < offset && on_char_boundary(text@, previous),
{
    GraphemeCursor::new(offset, text.len(), true).prev_boundary(&text[..end], 0).unwrap_or(None)
}

/// Where a cursor at `cursor` stands after a step for which the segmenter gave
/// `found`: at the boundary found, or where it was if none was found.
pub open spec fn stepped(cursor: usize, found: Option<usize>) -> usize {
    match found {
        Some(boundary) => boundary,
        None => cursor,
    }
}

/// Moves a cursor to the boundary that the segmenter found, if it found one.
pub fn step_cursor(cursor: usize, found: Option<usize>) -> (next: usize)
    ensures
        next == stepped(cursor, found),
{
    match found {
        Some(boundary) => boundary,
        None => cursor,
    }
}

/// Where a cursor at `cursor` stands after one step forward through `text`, the
/// segmenter reading from `start` on. The cursor stays where the offsets make no
/// sense or no boundary follows.
pub open spec fn walked_forward(text: Seq<char>, cursor: usize, start: usize) -> usize {
    if start <= cursor && on_char_boundary(text, start) && on_char_boundary(text, cursor) {
        stepped(cursor, grapheme_after(text, cursor, start))
    } else {
        cursor
    }
}

/// Where a cursor at `cursor` stands after one step back through `text`, the
/// segmenter reading up to `end`. The cursor stays where the offsets make no sense
/// or no boundary precedes.
pub open spec fn walked_back(text: Seq<char>, cursor: usize, end: usize) -> usize {
    if cursor <= end && on_char_boundary(text, end) && on_char_boundary(text, cursor) {
        stepped(cursor, grapheme_before(text, cursor, end))
    } else {
        cursor
    }
}

/// Steps a cursor at byte offset `cursor` of `text` forward by one grapheme
/// cluster.
pub fn walk_forward(text: &str, cursor: usize, start: usize) -> (next: usize)
    ensures
        next == walked_forward(text@, cursor, start),
        next >= cursor,
        on_char_boundary(text@, cursor) ==> on_char_boundary(text@, next),
{
    if start <= cursor && text.is_char_boundary(start) && text.is_char_boundary(cursor) {
        step_cursor(cursor, next_boundary(text, cursor, start))
    } else {
        cursor
    }
}

/// Steps a cursor at byte offset `cursor` of `text` back by one grapheme cluster.
pub fn walk_back(text: &str, cursor: usize, end: usize) -> (previous: usize)
    ensures
        previous == walked_back(text@, cursor, end),
        previous <= cursor,
        on_char_boundary(text@, cursor) ==> on_char_boundary(text@, previous),
{
    if cursor <= end && text.is_char_boundary(end) && text.is_char_boundary(cursor) {
        step_cursor(cursor, prev_boundary(text, cursor, end))
    } else {
        cursor
    }
}

/// The state of a search box. `Q` is the parsed form of a query; the search box
/// keeps it but never looks inside.
pub struct AppSearchState<Q> {
    /// Whether the search box is open.
    pub is_enabled: bool,
    /// The text as typed.
    pub current_search_query: String,
    /// The text did not parse.
    pub is_invalid_search: bool,
    /// The text is empty: nothing is filtered.
    pub is_blank_search: bool,
    /// The byte offset of the cursor in the text.
    pub grapheme_cursor: usize,
    /// The column of the cursor on screen.
    pub char_cursor_position: usize,
    /// The last query that parsed.
    pub query: Option<Q>,
    /// Why the text did not parse.
    pub error_message: Option<String>,
}

impl<Q> AppSearchState<Q> {
    /// A closed, empty search box.
    pub fn new() -> (state: Self)
        ensures
            state.is_pristine(),
            !state.is_enabled,
    {
        AppSearchState {
            is_enabled: false,
            current_search_query: String::new(),
            is_invalid_search: false,
            is_blank_search: true,
            grapheme_cursor: 0,
            char_cursor_position: 0,
            query: None,
            error_message: None,
        }
    }

    /// Nothing typed, nothing parsed, cursor at the start.
    pub open spec fn is_pristine(&self) -> bool {
        &&& self.current_search_query@.len() == 0
        &&& !self.is_invalid_search
        &&& self.is_blank_search
        &&& self.grapheme_cursor == 0
        &&& self.char_cursor_position == 0
        &&& self.query is None
        &&& self.error_message is None
    }

    /// Empties the search box. Whether it is open stays.
    pub fn reset(&mut self)
        ensures
            final(self).is_pristine(),
            final(self).is_enabled == old(self).is_enabled,
    {
        self.current_search_query = String::new();
        self.is_invalid_search = false;
        self.is_blank_search = true;
        self.grapheme_cursor = 0;
        self.char_cursor_position = 0;
        self.query = None;
        self.error_message = None;
    }

    /// The query that filters: none while the text is empty, else the last one that
    /// parsed, even if the current text does not.
    pub open spec fn active_query(&self) -> Option<Q> {
        if self.is_blank_search {
            None
        } else {
            self.query
        }
    }

    /// Takes in the outcome of parsing the current text.
    ///
    /// Empty text makes the search blank and valid, whatever `parsed` says. Else a
    /// parsed query becomes the one that filters, and a failure marks the search
    /// invalid and keeps its message, while the query that parsed last stays.
    pub fn take_parsed(&mut self, parsed: Result<Q, String>)
        ensures
            final(self).current_search_query == old(self).current_search_query,
            final(self).is_enabled == old(self).is_enabled,
            final(self).grapheme_cursor == old(self).grapheme_cursor,
            final(self).char_cursor_position == old(self).char_cursor_position,
            final(self).is_blank_search == (old(self).current_search_query@.len() == 0),
            final(self).is_invalid_search == (old(self).current_search_query@.len() != 0
                && parsed is Err),
            final(self).query == (if old(self).current_search_query@.len() != 0 && parsed is Ok {
                Some(parsed->Ok_0)
            } else {
                old(self).query
            }),
            final(self).error_message == (if old(self).current_search_query@.len() != 0
                && parsed is Err {
                Some(parsed->Err_0)
            } else {
                None
            }),
    {
        if self.current_search_query.as_str().is_empty() {
            self.is_blank_search = true;
            self.is_invalid_search = false;
            self.error_message = None;
        } else {
            match parsed {
                Ok(query) => {
                    self.query = Some(query);
                    self.is_blank_search = false;
                    self.is_invalid_search = false;
                    self.error_message = None;
                },
                Err(message) => {
                    self.is_blank_search = false;
                    self.is_invalid_search = true;
                    self.error_message = Some(message);
                },
            }
        }
    }
}

/// The search box of the process table together with how its text is to be read.
pub struct ProcessSearchState<Q> {
    pub search_state: AppSearchState<Q>,
    pub is_ignoring_case: bool,
    pub is_searching_whole_word: bool,
    pub is_searching_with_regex: bool,
}

impl<Q> ProcessSearchState<Q> {
    /// A closed, empty search box that ignores case and reads its text neither as
    /// whole words nor as a regular expression.
    pub fn new() -> (state: Self)
        ensures
            state.search_state.is_pristine(),
            !state.search_state.is_enabled,
            state.is_ignoring_case,
            !state.is_searching_whole_word,
            !state.is_searching_with_regex,
    {
        ProcessSearchState {
            search_state: AppSearchState::new(),
            is_ignoring_case: true,
            is_searching_whole_word: false,
            is_searching_with_regex: false,
        }
    }

    /// Switches between ignoring and minding case.
    pub fn search_toggle_ignore_case(&mut self)
        ensures
            final(self).is_ignoring_case == !old(self).is_ignoring_case,
            final(self).is_searching_whole_word == old(self).is_searching_whole_word,
            final(self).is_searching_with_regex == old(self).is_searching_with_regex,
            final(self).search_state == old(self).search_state,
    {
        self.is_ignoring_case = !self.is_ignoring_case;
    }

    /// Switches between matching whole words and matching anywhere.
    pub fn search_toggle_whole_word(&mut self)
        ensures
            final(self).is_searching_whole_word == !old(self).is_searching_whole_word,
            final(self).is_ignoring_case == old(self).is_ignoring_case,
            final(self).is_searching_with_regex == old(self).is_searching_with_regex,
            final(self).search_state == old(self).search_state,
    {
        self.is_searching_whole_word = !self.is_searching_whole_word;
    }

    /// Switches between reading the text as a regular expression and as plain text.
    pub fn search_toggle_regex(&mut self)
        ensures
            final(self).is_searching_with_regex == !old(self).is_searching_with_regex,
            final(self).is_ignoring_case == old(self).is_ignoring_case,
            final(self).is_searching_whole_word == old(self).is_searching_whole_word,
            final(self).search_state == old(self).search_state,
    {
        self.is_searching_with_regex = !self.is_searching_with_regex;
    }
}

impl<Q> Default for ProcessSearchState<Q> {
    fn default() -> (state: Self)
        ensures
            state.search_state.is_pristine(),
            !state.search_state.is_enabled,
            state.is_ignoring_case,
            !state.is_searching_whole_word,
            !state.is_searching_with_regex,
    {
        ProcessSearchState::new()
    }
}

} // verus!
