//! The text of open documents: lines, positions, edits, and the identifier
//! under a cursor.
//!
//! A position counts lines from zero and, within a line, characters from
//! zero. A character is one Unicode scalar value.

use crate::text::{
    copy_range, from_chars, index_of, is_word, is_word_char, lemma_index_of_is_first, line_extent,
    line_feed_from, same_text, split_lines, to_chars,
};
use vstd::prelude::*;

verus! {

/// A place in a text: a line, and a character within that line.
#[derive(Clone, Copy, Debug, PartialEq, Eq, Structural)]
pub struct Position {
    pub line: usize,
    pub character: usize,
}

/// The text between two positions.
#[derive(Clone, Copy, Debug, PartialEq, Eq, Structural)]
pub struct Range {
    pub start: Position,
    pub end: Position,
}

/// One edit of a document: with a range, the text that replaces that range;
/// without one, the text that replaces the whole document.
#[derive(Debug)]
pub struct ContentChange {
    pub range: Option<Range>,
    pub text: String,
}

/// Why a document could not answer.
#[derive(Clone, Copy, Debug, PartialEq, Eq, Structural)]
pub enum DocumentError {
    /// No document is open under the given name.
    NotFound,
    /// The document has no line of the given number.
    InvalidData,
}

/// The index in `text` at which line `line` starts, line terminators
/// counted. A line that the text does not have starts behind the text.
pub open spec fn line_start(text: Seq<char>, line: nat) -> int
    decreases line,
{
    if line == 0 {
        0
    } else {
        let n = index_of(text, '\n') as int;
        if n >= text.len() {
            (text.len() + line) as int
        } else {
            n + 1 + line_start(text.skip(n + 1), (line - 1) as nat)
        }
    }
}

/// The place of `position` in `text`: where its line starts, plus its
/// character. The terminators of the lines before it are counted.
pub open spec fn position_offset(text: Seq<char>, position: Position) -> int {
    line_start(text, position.line as nat) + position.character
}

/// `text` with the characters from `start` up to `end` replaced by
/// `replacement`.
pub open spec fn splice(text: Seq<char>, start: int, end: int, replacement: Seq<char>) -> Seq<
    char,
> {
    text.take(start) + replacement + text.skip(end)
}

/// Whether `change` can be made to `text`: a range must lie within the text,
/// its start not after its end.
pub open spec fn change_applies(text: Seq<char>, change: ContentChange) -> bool {
    match change.range {
        None => true,
        Some(range) => position_offset(text, range.start) <= position_offset(text, range.end)
            <= text.len(),
    }
}

/// `text` after `change`.
pub open spec fn apply_change(text: Seq<char>, change: ContentChange) -> Seq<char> {
    match change.range {
        None => change.text@,
        Some(range) => splice(
            text,
            position_offset(text, range.start),
            position_offset(text, range.end),
            change.text@,
        ),
    }
}

/// Whether each of `changes` can be made in turn, the first to `text` and
/// each later one to what the one before it left.
pub open spec fn changes_apply(text: Seq<char>, changes: Seq<ContentChange>) -> bool
    decreases changes.len(),
{
    changes.len() == 0 || (change_applies(text, changes[0]) && changes_apply(
        apply_change(text, changes[0]),
        changes.skip(1),
    ))
}

/// `text` after each of `changes` in turn.
pub open spec fn apply_changes(text: Seq<char>, changes: Seq<ContentChange>) -> Seq<char>
    decreases changes.len(),
{
    if changes.len() == 0 {
        text
    } else {
        apply_changes(apply_change(text, changes[0]), changes.skip(1))
    }
}

/// Where a run of word characters that reaches column `col` of `line`
/// starts: directly after the nearest character before `col` that is no
/// word character, or at 0.
pub open spec fn token_start(line: Seq<char>, col: int) -> int
    decreases col,
{
    if col <= 0 {
        0
    } else if !is_word_char(line[col - 1]) {
        col
    } else {
        token_start(line, col - 1)
    }
}

/// Where a run of word characters from column `col` of `line` on ends: at
/// the nearest character at or after `col` that is no word character, or at
/// the end.
pub open spec fn token_end(line: Seq<char>, col: int) -> int
    decreases line.len() - col,
{
    if col >= line.len() {
        line.len() as int
    } else if !is_word_char(line[col]) {
        col
    } else {
        token_end(line, col + 1)
    }
}

/// The identifier under the cursor at column `col` of `line`. On a
/// character that is no word character there is none, and the answer is
/// empty. On a word character it is the whole run of word characters around
/// it. At the end of the line, or behind it, it is the run that ends the
/// line.
pub open spec fn token_at(line: Seq<char>, col: int) -> Seq<char> {
    if col < line.len() {
        if is_word_char(line[col]) {
            line.subrange(token_start(line, col), token_end(line, col))
        } else {
            Seq::empty()
        }
    } else {
        line.subrange(token_start(line, line.len() as int), line.len() as int)
    }
}

/// A change without a range leaves nothing of what came before it: whatever
/// the text was, after the same changes it is the text of the last such
/// change with the changes behind it made to it. What is read from a
/// document afterwards therefore depends on the new text alone.
pub proof fn lemma_full_replace_forgets(
    first: Seq<char>,
    second: Seq<char>,
    changes: Seq<ContentChange>,
    k: int,
)
    requires
        0 <= k < changes.len(),
        changes[k].range is None,
    ensures
        apply_changes(first, changes) == apply_changes(second, changes),
        apply_changes(first, changes) == apply_changes(changes[k].text@, changes.skip(k + 1)),
    decreases k,
{
    if k == 0 {
    } else {
        let rest = changes.skip(1);
        assert(rest[k - 1] == changes[k]);
        assert(rest.skip(k) == changes.skip(k + 1));
        lemma_full_replace_forgets(apply_change(first, changes[0]), second, rest, k - 1);
        lemma_full_replace_forgets(apply_change(second, changes[0]), second, rest, k - 1);
    }
}

/// Making changes one after another is making them all: the changes `head`
/// and then the changes `tail` leave what `head + tail` leaves.
pub proof fn lemma_apply_changes_in_order(
    text: Seq<char>,
    head: Seq<ContentChange>,
    tail: Seq<ContentChange>,
)
    ensures
        apply_changes(text, head + tail) == apply_changes(apply_changes(text, head), tail),
    decreases head.len(),
{
    if head.len() == 0 {
        assert(head + tail == tail);
    } else {
        assert((head + tail)[0] == head[0]);
        assert((head + tail).skip(1) == head.skip(1) + tail);
        lemma_apply_changes_in_order(apply_change(text, head[0]), head.skip(1), tail);
    }
}

/// Each line stands in the text at its start.
pub proof fn lemma_line_in_text(text: Seq<char>, line: nat)
    requires
        line < split_lines(text).len(),
    ensures
        ({
            let lines = split_lines(text);
            let start = line_start(text, line);
            &&& 0 <= start
            &&& start + lines[line as int].len() <= text.len()
            &&& text.subrange(start, start + lines[line as int].len()) == lines[line as int]
        }),
    decreases line,
{
    let lines = split_lines(text);
    let n = index_of(text, '\n') as int;
    lemma_index_of_is_first(text, '\n');
    if line == 0 {
        assert(text.subrange(0, lines[0].len() as int) == lines[0]);
    } else {
        let rest = text.skip(n + 1);
        let first = lines[0];
        let behind = split_lines(rest);
        assert(lines == seq![first] + behind);
        assert(lines[line as int] == behind[line - 1]);
        lemma_line_in_text(rest, (line - 1) as nat);
        let start = line_start(rest, (line - 1) as nat);
        let length = behind[line - 1].len() as int;
        assert(text.subrange(n + 1 + start, n + 1 + start + length) == rest.subrange(
            start,
            start + length,
        ));
    }
}

/// An edit is made where its positions point: the offset of a position
/// within a line is the place in the text of the character that the line
/// has there, the terminators of the lines before it counted.
pub proof fn lemma_offset_is_place_of_character(text: Seq<char>, position: Position)
    requires
        position.line < split_lines(text).len(),
        position.character < split_lines(text)[position.line as int].len(),
    ensures
        0 <= position_offset(text, position) < text.len(),
        text[position_offset(text, position)] == split_lines(text)[position.line as int][position.character as int],
{
    lemma_line_in_text(text, position.line as nat);
    let start = line_start(text, position.line as nat);
    let line = split_lines(text)[position.line as int];
    assert(text.subrange(start, start + line.len())[position.character as int] == text[start
        + position.character]);
}

/// A position on a line behind the line that would follow the last one
/// lies behind the text, so that no edit can be made there.
pub proof fn lemma_missing_line_is_behind_text(text: Seq<char>, line: nat)
    requires
        line > split_lines(text).len(),
    ensures
        line_start(text, line) > text.len(),
    decreases line,
{
    let n = index_of(text, '\n') as int;
    lemma_index_of_is_first(text, '\n');
    if n < text.len() {
        let rest = text.skip(n + 1);
        assert(split_lines(text) == seq![split_lines(text)[0]] + split_lines(rest));
        lemma_missing_line_is_behind_text(rest, (line - 1) as nat);
    }
}

/// With the cursor on any character of a run of word characters that no
/// word character borders, the identifier is that whole run.
pub proof fn lemma_token_is_whole_run(line: Seq<char>, start: int, end: int, col: int)
    requires
        0 <= start <= col < end <= line.len(),
        forall|i: int| start <= i < end ==> is_word_char(line[i]),
        start == 0 || !is_word_char(line[start - 1]),
        end == line.len() || !is_word_char(line[end]),
    ensures
        token_at(line, col) == line.subrange(start, end),
{
    lemma_token_start(line, start, col);
    lemma_token_end(line, col, end);
}

/// With the cursor on a character that is no word character, the
/// identifier is empty, whatever stands beside it.
pub proof fn lemma_token_empty_on_delimiter(line: Seq<char>, col: int)
    requires
        0 <= col < line.len(),
        !is_word_char(line[col]),
    ensures
        token_at(line, col) == Seq::<char>::empty(),
{
}

/// With the cursor at the end of the line or behind it, the identifier is
/// the run of word characters that ends the line.
pub proof fn lemma_token_at_line_end(line: Seq<char>, start: int, col: int)
    requires
        0 <= start <= line.len() <= col,
        forall|i: int| start <= i < line.len() ==> is_word_char(line[i]),
        start == 0 || !is_word_char(line[start - 1]),
    ensures
        token_at(line, col) == line.subrange(start, line.len() as int),
{
    lemma_token_start(line, start, line.len() as int);
}

/// Word characters from `start` up to `col`, and none before `start`, put
/// the identifier's start at `start`.
proof fn lemma_token_start(line: Seq<char>, start: int, col: int)
    requires
        0 <= start <= col <= line.len(),
        forall|i: int| start <= i < col ==> is_word_char(line[i]),
        start == 0 || !is_word_char(line[start - 1]),
    ensures
        token_start(line, col) == start,
    decreases col - start,
{
    if col > start {
        lemma_token_start(line, start, col - 1);
    }
}

/// Word characters from `col` up to `end`, and none at `end`, put the
/// identifier's end at `end`.
proof fn lemma_token_end(line: Seq<char>, col: int, end: int)
    requires
        0 <= col <= end <= line.len(),
        forall|i: int| col <= i < end ==> is_word_char(line[i]),
        end == line.len() || !is_word_char(line[end]),
    ensures
        token_end(line, col) == end,
    decreases end - col,
{
    if col < end {
        lemma_token_end(line, col + 1, end);
    }
}

/// The identifier under the cursor at `position` in `text`, where the text
/// has the position's line.
pub open spec fn symbol_at(text: Seq<char>, position: Position) -> Result<
    Seq<char>,
    DocumentError,
> {
    if position.line < split_lines(text).len() {
        Ok(token_at(split_lines(text)[position.line as int], position.character as int))
    } else {
        Err(DocumentError::InvalidData)
    }
}

/// The text of a result, if it is one.
pub open spec fn result_text<E>(r: Result<String, E>) -> Result<Seq<char>, E> {
    match r {
        Ok(s) => Ok(s@),
        Err(e) => Err(e),
    }
}

/// The text of one open document.
pub struct TextDocument {
    text: Vec<char>,
}

impl View for TextDocument {
    type V = Seq<char>;

    closed spec fn view(&self) -> Seq<char> {
        self.text@
    }
}

/// Where a line stands in a text.
struct LineSpan {
    start: usize,
    end: usize,
}

impl TextDocument {
    /// A document that holds `text`.
    pub fn new(text: String) -> (doc: Self)
        ensures
            doc@ == text@,
    {
        Self { text: to_chars(text.as_str()) }
    }

    /// The whole text.
    pub fn text(&self) -> (s: String)
        ensures
            s@ == self@,
    {
        let s = from_chars(self.text.as_slice(), 0, self.text.len());
        assert(self.text@.subrange(0, self.text@.len() as int) == self.text@);
        s
    }

    /// Walks to line `line`, if the text has it.
    fn seek(&self, line: usize) -> (r: Option<LineSpan>)
        ensures
            r is Some == (line < split_lines(self@).len()),
            r matches Some(span) ==> span.start <= span.end <= self@.len() && split_lines(
                self@,
            )[line as int] == self@.subrange(span.start as int, span.end as int),
    {
        let text = self.text.as_slice();
        let ghost lines = split_lines(text@);
        let ghost mut done: Seq<Seq<char>> = Seq::empty();
        let mut start: usize = 0;
        let mut k: usize = 0;
        proof {
            assert(text@.skip(0) == text@);
        }
        while start < text.len()
            invariant
                text@ == self@,
                lines == split_lines(text@),
                start <= text.len(),
                k <= line,
                done.len() == k,
                lines == done + split_lines(text@.skip(start as int)),
            decreases text.len() - start,
        {
            let (end, next) = line_extent(text, start);
            let ghost this = text@.subrange(start as int, end as int);
            proof {
                assert(lines == done.push(this) + split_lines(text@.skip(next as int)));
                assert(lines[k as int] == this);
            }
            if k == line {
                return Some(LineSpan { start, end });
            }
            k = k + 1;
            start = next;
            proof {
                done = done.push(this);
            }
        }
        proof {
            assert(split_lines(text@.skip(start as int)) == Seq::<Seq<char>>::empty());
            assert(lines == done);
        }
        None
    }

    /// Line `line_number` of the text, without its terminator.
    pub fn get_line(&self, line_number: usize) -> (r: Result<String, DocumentError>)
        ensures
            match r {
                Ok(line) => line_number < split_lines(self@).len() && line@ == split_lines(
                    self@,
                )[line_number as int],
                Err(e) => line_number >= split_lines(self@).len() && e
                    == DocumentError::InvalidData,
            },
    {
        match self.seek(line_number) {
            Some(span) => Ok(from_chars(self.text.as_slice(), span.start, span.end)),
            None => Err(DocumentError::InvalidData),
        }
    }

    /// The place of `position` in the text, where a `usize` can hold it.
    pub fn position_to_offset(&self, position: Position) -> (r: Option<usize>)
        ensures
            match r {
                Some(offset) => offset == position_offset(self@, position),
                None => position_offset(self@, position) > usize::MAX,
            },
    {
        let text = self.text.as_slice();
        let mut start: usize = 0;
        let mut k: usize = 0;
        proof {
            assert(text@.skip(0) == text@);
        }
        while k < position.line
            invariant
                text@ == self@,
                start <= text.len(),
                k <= position.line,
                line_start(text@, position.line as nat) == start + line_start(
                    text@.skip(start as int),
                    (position.line - k) as nat,
                ),
            decreases position.line - k,
        {
            let feed = line_feed_from(text, start);
            if feed == text.len() {
                return match text.len().checked_add(position.line - k) {
                    Some(behind) => behind.checked_add(position.character),
                    None => None,
                };
            }
            proof {
                assert(text@.skip(start as int).skip(feed - start + 1) == text@.skip(feed + 1));
            }
            start = feed + 1;
            k = k + 1;
        }
        start.checked_add(position.character)
    }

    /// Whether `change` can be made to this document.
    pub fn accepts(&self, change: &ContentChange) -> (b: bool)
        ensures
            b == change_applies(self@, *change),
    {
        match change.range {
            None => true,
            Some(range) => {
                let start = self.position_to_offset(range.start);
                let end = self.position_to_offset(range.end);
                let len = self.text.len();
                match (start, end) {
                    (Some(start), Some(end)) => start <= end && end <= len,
                    _ => false,
                }
            },
        }
    }

    /// Makes one change, which must be one that can be made: `accepts`
    /// tells.
    pub fn apply_change(&mut self, change: &ContentChange)
        requires
            change_applies(old(self)@, *change),
        ensures
            final(self)@ == apply_change(old(self)@, *change),
    {
        let replacement = to_chars(change.text.as_str());
        match change.range {
            None => {
                self.text = replacement;
            },
            Some(range) => {
                let len = self.text.len();
                let start = self.position_to_offset(range.start).unwrap();
                let end = self.position_to_offset(range.end).unwrap();
                let mut text = copy_range(self.text.as_slice(), 0, start);
                text.extend_from_slice(replacement.as_slice());
                let tail = copy_range(self.text.as_slice(), end, len);
                text.extend_from_slice(tail.as_slice());
                proof {
                    assert(self.text@.subrange(0, start as int) == self.text@.take(start as int));
                    assert(self.text@.subrange(end as int, self.text@.len() as int)
                        == self.text@.skip(end as int));
                }
                self.text = text;
            },
        }
    }

    /// Makes each of `changes` in turn, in the order of the list. Each must
    /// be one that can be made to what the changes before it left;
    /// `try_apply_changes` asks for nothing.
    pub fn apply_changes(&mut self, changes: Vec<ContentChange>)
        requires
            changes_apply(old(self)@, changes@),
        ensures
            final(self)@ == apply_changes(old(self)@, changes@),
    {
        let mut i: usize = 0;
        proof {
            assert(changes@.skip(0) == changes@);
        }
        while i < changes.len()
            invariant
                i <= changes.len(),
                changes_apply(self@, changes@.skip(i as int)),
                apply_changes(self@, changes@.skip(i as int)) == apply_changes(
                    old(self)@,
                    changes@,
                ),
            decreases changes.len() - i,
        {
            proof {
                assert(changes@.skip(i as int)[0] == changes@[i as int]);
                assert(changes@.skip(i as int).skip(1) == changes@.skip(i + 1));
            }
            self.apply_change(&changes[i]);
            i += 1;
        }
    }

    /// Makes each of `changes` in turn where each can be made, and says so;
    /// where one cannot, the document stays as it was.
    pub fn try_apply_changes(&mut self, changes: &Vec<ContentChange>) -> (done: bool)
        ensures
            done == changes_apply(old(self)@, changes@),
            final(self)@ == if done {
                apply_changes(old(self)@, changes@)
            } else {
                old(self)@
            },
    {
        let mut draft = TextDocument { text: self.text.clone() };
        let mut i: usize = 0;
        proof {
            assert(changes@.skip(0) == changes@);
            assert(draft@ == self@);
        }
        while i < changes.len()
            invariant
                i <= changes.len(),
                changes_apply(draft@, changes@.skip(i as int)) == changes_apply(self@, changes@),
                changes_apply(self@, changes@) ==> apply_changes(draft@, changes@.skip(i as int))
                    == apply_changes(self@, changes@),
            decreases changes.len() - i,
        {
            proof {
                assert(changes@.skip(i as int)[0] == changes@[i as int]);
                assert(changes@.skip(i as int).skip(1) == changes@.skip(i + 1));
            }
            if !draft.accepts(&changes[i]) {
                return false;
            }
            draft.apply_change(&changes[i]);
            i += 1;
        }
        self.text = draft.text;
        true
    }

    /// The identifier under the cursor at `position`: empty on a character
    /// that is no word character, else the whole run of word characters
    /// around the cursor. At the end of the line, or behind it, it is the
    /// run that ends the line.
    pub fn get_symbol_at_position(&self, position: Position) -> (r: Result<String, DocumentError>)
        ensures
            result_text(r) == symbol_at(self@, position),
    {
        let span = match self.seek(position.line) {
            Some(span) => span,
            None => {
                return Err(DocumentError::InvalidData);
            },
        };
        let line = copy_range(self.text.as_slice(), span.start, span.end);
        if position.character < line.len() && !is_word(line[position.character]) {
            return Ok(String::new());
        }
        let at: usize = if position.character < line.len() {
            position.character
        } else {
            line.len()
        };
        let mut start: usize = at;
        while start > 0 && is_word(line[start - 1])
            invariant
                start <= at <= line.len(),
                token_start(line@, start as int) == token_start(line@, at as int),
            decreases start,
        {
            start -= 1;
        }
        let mut end: usize = at;
        while end < line.len() && is_word(line[end])
            invariant
                at <= end <= line.len(),
                token_end(line@, end as int) == token_end(line@, at as int),
            decreases line.len() - end,
        {
            end += 1;
        }
        Ok(from_chars(line.as_slice(), start, end))
    }
}

/// The open documents, each under the name it was opened with. They are
/// kept in two lists side by side, the names and the texts, and found by
/// going through the names: few documents are open at a time, and nothing
/// here rests on how names are hashed.
pub struct DocumentsCache {
    names: Vec<String>,
    documents: Vec<TextDocument>,
}

/// A name and the text that is open under it.
struct OpenDocument {
    uri: Seq<char>,
    text: Seq<char>,
}

/// The open documents that the two lists hold, in their order.
spec fn listed(names: Seq<String>, documents: Seq<TextDocument>) -> Seq<OpenDocument> {
    Seq::new(names.len(), |i: int| OpenDocument { uri: names[i]@, text: documents[i]@ })
}

/// Whether entry `i` of `entries` is the first that is named `uri`.
spec fn first_named(entries: Seq<OpenDocument>, uri: Seq<char>, i: int) -> bool {
    &&& 0 <= i < entries.len()
    &&& entries[i].uri == uri
    &&& forall|j: int| 0 <= j < i ==> entries[j].uri != uri
}

/// The text of each name's first entry.
spec fn by_name(entries: Seq<OpenDocument>) -> Map<Seq<char>, Seq<char>> {
    Map::new(
        |uri: Seq<char>| exists|i: int| first_named(entries, uri, i),
        |uri: Seq<char>| entries[choose|i: int| first_named(entries, uri, i)].text,
    )
}

/// No name occurs twice in `names`.
spec fn distinct_names(names: Seq<String>) -> bool {
    forall|i: int, j: int| 0 <= i < j < names.len() ==> names[i]@ != names[j]@
}

/// The first entry of a name is what the name maps to.
proof fn lemma_first_named(entries: Seq<OpenDocument>, uri: Seq<char>, i: int)
    requires
        first_named(entries, uri, i),
    ensures
        by_name(entries).dom().contains(uri),
        by_name(entries)[uri] == entries[i].text,
{
    let k = choose|k: int| first_named(entries, uri, k);
    assert(k == i);
}

/// A name that no entry has maps to nothing.
proof fn lemma_not_named(entries: Seq<OpenDocument>, uri: Seq<char>)
    requires
        forall|j: int| 0 <= j < entries.len() ==> entries[j].uri != uri,
    ensures
        !by_name(entries).dom().contains(uri),
{
}

/// Taking out the one entry named `uri` leaves the other names what they
/// had, and `uri` nothing.
proof fn lemma_remove_entry(entries: Seq<OpenDocument>, uri: Seq<char>, i: int)
    requires
        0 <= i < entries.len(),
        entries[i].uri == uri,
        forall|j: int| 0 <= j < entries.len() && j != i ==> entries[j].uri != uri,
    ensures
        by_name(entries.remove(i)) == by_name(entries).remove(uri),
{
    let after = entries.remove(i);
    let left = by_name(after);
    let right = by_name(entries).remove(uri);
    assert forall|name: Seq<char>|
        #[trigger] left.dom().contains(name) == right.dom().contains(name) && (left.dom().contains(
            name,
        ) ==> left[name] == right[name]) by {
        if name != uri && by_name(entries).dom().contains(name) {
            let k = choose|k: int| first_named(entries, name, k);
            lemma_first_named(entries, name, k);
            let m = if k < i {
                k
            } else {
                k - 1
            };
            assert(after[m] == entries[k]);
            assert forall|j: int| 0 <= j < m implies after[j].uri != name by {
                if j >= i {
                    assert(after[j] == entries[j + 1]);
                } else {
                    assert(after[j] == entries[j]);
                }
            }
            assert(first_named(after, name, m));
            lemma_first_named(after, name, m);
        }
        if by_name(after).dom().contains(name) {
            let m = choose|m: int| first_named(after, name, m);
            let k = if m < i {
                m
            } else {
                m + 1
            };
            assert(after[m] == entries[k]);
            assert forall|j: int| 0 <= j < k implies entries[j].uri != name by {
                if j > i {
                    assert(after[j - 1] == entries[j]);
                } else if j < i {
                    assert(after[j] == entries[j]);
                }
            }
            assert(first_named(entries, name, k));
        }
    }
    assert forall|name: Seq<char>| left.dom().contains(name) implies #[trigger] left[name]
        == right[name] by {
        assert(left.dom().contains(name) == right.dom().contains(name));
    }
    assert(left.dom() =~= right.dom());
    assert(left =~= right);
}

/// An entry that is put in place of its name's first entry, or behind all
/// entries where the name is new, is what the name then maps to, and the
/// other names keep what they had.
proof fn lemma_put_entry(before: Seq<OpenDocument>, after: Seq<OpenDocument>, i: int)
    requires
        0 <= i < after.len(),
        i <= before.len(),
        forall|j: int| 0 <= j < i ==> before[j].uri != after[i].uri,
        i < before.len() ==> after.len() == before.len() && before[i].uri == after[i].uri,
        i == before.len() ==> after.len() == i + 1,
        forall|j: int| 0 <= j < before.len() && j != i ==> after[j] == before[j],
    ensures
        by_name(after) == by_name(before).insert(after[i].uri, after[i].text),
{
    let uri = after[i].uri;
    let left = by_name(after);
    let right = by_name(before).insert(uri, after[i].text);
    assert(first_named(after, uri, i));
    lemma_first_named(after, uri, i);
    assert forall|name: Seq<char>|
        #[trigger] left.dom().contains(name) == right.dom().contains(name) && (left.dom().contains(
            name,
        ) ==> left[name] == right[name]) by {
        if name != uri && by_name(after).dom().contains(name) {
            let k = choose|k: int| first_named(after, name, k);
            assert(first_named(before, name, k));
        }
        if name != uri && by_name(before).dom().contains(name) {
            let k = choose|k: int| first_named(before, name, k);
            lemma_first_named(before, name, k);
            assert(first_named(after, name, k));
            lemma_first_named(after, name, k);
        }
    }
    assert forall|name: Seq<char>| left.dom().contains(name) implies #[trigger] left[name]
        == right[name] by {
        assert(left.dom().contains(name) == right.dom().contains(name));
    }
    assert(left.dom() =~= right.dom());
    assert(left =~= right);
}

impl View for DocumentsCache {
    type V = Map<Seq<char>, Seq<char>>;

    /// The text of each open document, by its name.
    closed spec fn view(&self) -> Map<Seq<char>, Seq<char>> {
        by_name(listed(self.names@, self.documents@))
    }
}

impl DocumentsCache {
    /// Each name has its text, and no two documents are open under one
    /// name.
    #[verifier::type_invariant]
    spec fn one_text_for_each_name(self) -> bool {
        self.names.len() == self.documents.len() && distinct_names(self.names@)
    }

    /// No document is open.
    pub fn new() -> (cache: Self)
        ensures
            cache@ == Map::<Seq<char>, Seq<char>>::empty(),
    {
        let cache = Self { names: Vec::new(), documents: Vec::new() };
        assert(cache@ =~= Map::<Seq<char>, Seq<char>>::empty());
        cache
    }

    /// Where the document named `uri` stands, if it is open.
    fn position(&self, uri: &str) -> (r: Option<usize>)
        ensures
            match r {
                Some(i) => i < self.names.len() && self.names[i as int]@ == uri@,
                None => forall|j: int| 0 <= j < self.names.len() ==> self.names[j]@ != uri@,
            },
    {
        let mut i: usize = 0;
        while i < self.names.len()
            invariant
                i <= self.names.len(),
                forall|j: int| 0 <= j < i ==> self.names[j]@ != uri@,
            decreases self.names.len() - i,
        {
            if same_text(self.names[i].as_str(), uri) {
                return Some(i);
            }
            i += 1;
        }
        None
    }

    /// The document named `uri`, if it is open.
    pub fn get(&self, uri: &str) -> (r: Option<&TextDocument>)
        ensures
            match r {
                Some(document) => self@.dom().contains(uri@) && document@ == self@[uri@],
                None => !self@.dom().contains(uri@),
            },
    {
        proof {
            use_type_invariant(self);
        }
        let ghost entries = listed(self.names@, self.documents@);
        match self.position(uri) {
            Some(i) => {
                proof {
                    assert(first_named(entries, uri@, i as int));
                    lemma_first_named(entries, uri@, i as int);
                }
                Some(&self.documents[i])
            },
            None => {
                proof {
                    lemma_not_named(entries, uri@);
                }
                None
            },
        }
    }

    /// The document named `uri`, if it is open, to be changed in place.
    pub fn get_mut(&mut self, uri: &str) -> (r: Option<&mut TextDocument>)
        ensures
            match r {
                Some(document) => old(self)@.dom().contains(uri@) && document@ == old(self)@[uri@]
                    && final(self)@ == old(self)@.insert(uri@, final(document)@),
                None => !old(self)@.dom().contains(uri@) && final(self)@ == old(self)@,
            },
    {
        proof {
            use_type_invariant(&*self);
        }
        let ghost names = self.names@;
        let ghost before = self.documents@;
        let ghost entries = listed(names, before);
        match self.position(uri) {
            Some(i) => {
                proof {
                    assert(first_named(entries, uri@, i as int));
                    lemma_first_named(entries, uri@, i as int);
                    assert forall|after: Seq<TextDocument>|
                        after.len() == before.len() && (forall|j: int|
                            0 <= j < before.len() && j != i ==> after[j] == before[j]) implies by_name(
                        #[trigger] listed(names, after),
                    ) == by_name(entries).insert(uri@, after[i as int]@) by {
                        lemma_put_entry(entries, listed(names, after), i as int);
                    }
                }
                Some(&mut self.documents[i])
            },
            None => {
                proof {
                    lemma_not_named(entries, uri@);
                }
                None
            },
        }
    }

    /// Opens `document` under `uri`, in place of what was open under it.
    pub fn insert(&mut self, uri: String, document: TextDocument)
        ensures
            final(self)@ == old(self)@.insert(uri@, document@),
    {
        proof {
            use_type_invariant(&*self);
        }
        let ghost before = listed(self.names@, self.documents@);
        let found = self.position(uri.as_str());
        let mut taken = Self::new();
        core::mem::swap(self, &mut taken);
        let mut names = taken.names;
        let mut documents = taken.documents;
        match found {
            Some(i) => {
                documents.set(i, document);
            },
            None => {
                names.push(uri);
                documents.push(document);
            },
        }
        proof {
            let at = match found {
                Some(i) => i as int,
                None => before.len() as int,
            };
            lemma_put_entry(before, listed(names@, documents@), at);
        }
        *self = Self { names, documents };
    }

    /// Closes the document named `uri`, if it is open.
    pub fn remove(&mut self, uri: &str)
        ensures
            final(self)@ == old(self)@.remove(uri@),
    {
        proof {
            use_type_invariant(&*self);
        }
        let ghost before = listed(self.names@, self.documents@);
        match self.position(uri) {
            Some(i) => {
                let mut taken = Self::new();
                core::mem::swap(self, &mut taken);
                let mut names = taken.names;
                let mut documents = taken.documents;
                names.remove(i);
                documents.remove(i);
                proof {
                    lemma_remove_entry(before, uri@, i as int);
                    assert(listed(names@, documents@) =~= before.remove(i as int));
                }
                *self = Self { names, documents };
            },
            None => {
                proof {
                    lemma_not_named(before, uri@);
                    assert(self@.remove(uri@) =~= self@);
                }
            },
        }
    }
}

} // verus!
