//! The struct configuration grammar: what a line is, what a text parses
//! to, and how a tree of entries is written out.
//!
//! A text is read line by line. A line opens a struct (`name :
//! struct.begin` and trailing text), closes one (`struct.end`), gives a value
//! (`name = value`), is a comment (`//`), or is passed over.

use crate::text::{
    chars_of, contains, contains_text, find_char, first_index_of, has_line_break,
    has_line_break_from, join_lines, lines_of, matches_at, skip_blanks, skip_blanks_from,
    skip_whitespace, spaces, string_of_range, trim, trim_range, trim_start,
};
use vstd::prelude::*;

verus! {

/// One entry of a document: a named value, or a named struct with its own
/// entries in order.
pub enum Entry {
    Value { name: Seq<char>, value: Seq<char> },
    Struct { name: Seq<char>, meta: Seq<char>, entries: Seq<Entry> },
}

/// What a single line is.
pub enum Line {
    /// The first characters after leading whitespace are `//`.
    Comment,
    /// `name : struct.begin` followed by `meta`, which is kept verbatim.
    Open { name: Seq<char>, meta: Seq<char> },
    /// Exactly `struct.end` between whitespace.
    Close,
    /// `name = value`.
    Value { name: Seq<char>, value: Seq<char> },
    /// Holds `struct.begin` but does not open a struct.
    StrayBegin,
    /// Holds `struct.end` but does not close a struct.
    StrayEnd,
    /// Anything else: passed over.
    Other,
}

/// Why a text is no document.
#[derive(Debug, Clone, Copy, PartialEq, Eq, Structural)]
pub enum ParseError {
    /// `struct.end` on this line (counted from 1) closes nothing.
    UnmatchedEnd { line: usize },
    /// This line holds `struct.begin` where no struct can open.
    UnprocessedBegin { line: usize },
    /// This line holds `struct.end` where no struct can close.
    UnprocessedEnd { line: usize },
    /// The text ends with this many structs still open.
    Unclosed { count: usize },
    /// `struct.end` on this line closes one struct more than a document holds.
    TooManyStructs { line: usize },
}

/// The number of structs that a document holds at most.
pub const MAX_STRUCTS: usize = 0xFFFF_FFFE;

/// The keyword that opens a struct.
pub open spec fn begin_word() -> Seq<char> {
    "struct.begin"@
}

/// The keyword that closes a struct.
pub open spec fn end_word() -> Seq<char> {
    "struct.end"@
}

/// What a comment starts with.
pub open spec fn comment_mark() -> Seq<char> {
    "//"@
}

/// `line` split at its first `sep`: the trimmed text before it, and the text
/// after it without leading blanks. Blanks at the start of the line do not
/// count.
pub open spec fn split_at_sep(line: Seq<char>, sep: char) -> Option<(Seq<char>, Seq<char>)> {
    let s = skip_blanks(line);
    let i = first_index_of(s, sep) as int;
    if i < s.len() {
        Some((trim(s.take(i)), skip_blanks(s.skip(i + 1))))
    } else {
        None
    }
}

/// Name and trailing text of a line that opens a struct.
pub open spec fn open_parts(line: Seq<char>) -> Option<(Seq<char>, Seq<char>)> {
    match split_at_sep(line, ':') {
        Some((name, rest)) => {
            if begin_word().is_prefix_of(rest) && !has_line_break(
                rest.skip(begin_word().len() as int),
            ) {
                Some((name, rest.skip(begin_word().len() as int)))
            } else {
                None
            }
        },
        None => None,
    }
}

/// Name and value of a line that gives a value.
pub open spec fn value_parts(line: Seq<char>) -> Option<(Seq<char>, Seq<char>)> {
    match split_at_sep(line, '=') {
        Some((name, rest)) => {
            if !has_line_break(rest) {
                Some((name, rest))
            } else {
                None
            }
        },
        None => None,
    }
}

/// What a line is. A line that holds a keyword and neither opens nor closes a
/// struct is an error, whatever else it holds.
pub open spec fn classify(line: Seq<char>) -> Line {
    if comment_mark().is_prefix_of(trim_start(line)) {
        Line::Comment
    } else if let Some(parts) = open_parts(line) {
        Line::Open { name: parts.0, meta: parts.1 }
    } else if trim(line) == end_word() {
        Line::Close
    } else if contains_text(line, begin_word()) {
        Line::StrayBegin
    } else if contains_text(line, end_word()) {
        Line::StrayEnd
    } else if let Some(parts) = value_parts(line) {
        Line::Value { name: parts.0, value: parts.1 }
    } else {
        Line::Other
    }
}

/// A scope that is being read: the struct's name and trailing text, and the
/// entries read so far. The outermost scope is the document itself, with
/// an empty name.
pub struct Scope {
    pub name: Seq<char>,
    pub meta: Seq<char>,
    pub entries: Seq<Entry>,
}

/// The scope of the document itself, before anything is read.
pub open spec fn root_scope() -> Scope {
    Scope { name: Seq::empty(), meta: Seq::empty(), entries: Seq::empty() }
}

/// A scope with one more entry behind those it has.
pub open spec fn with_entry(scope: Scope, entry: Entry) -> Scope {
    Scope { name: scope.name, meta: scope.meta, entries: scope.entries.push(entry) }
}

/// The open scopes after one more line, innermost last; `None` where the
/// line is an error. `scopes` is never empty.
pub open spec fn advance(scopes: Seq<Scope>, line: Line) -> Option<Seq<Scope>> {
    match line {
        Line::Comment | Line::Other => Some(scopes),
        Line::Open { name, meta } => Some(
            scopes.push(Scope { name, meta, entries: Seq::empty() }),
        ),
        Line::Close => {
            if scopes.len() <= 1 {
                None
            } else {
                let done = scopes.last();
                let outer = scopes.drop_last();
                let entry = Entry::Struct {
                    name: done.name,
                    meta: done.meta,
                    entries: done.entries,
                };
                Some(outer.drop_last().push(with_entry(outer.last(), entry)))
            }
        },
        Line::Value { name, value } => Some(
            scopes.drop_last().push(with_entry(scopes.last(), Entry::Value { name, value })),
        ),
        Line::StrayBegin | Line::StrayEnd => None,
    }
}

/// The error of a line, numbered `number`, on which `advance` fails.
pub open spec fn line_error(line: Line, number: usize) -> ParseError {
    match line {
        Line::StrayBegin => ParseError::UnprocessedBegin { line: number },
        Line::StrayEnd => ParseError::UnprocessedEnd { line: number },
        _ => ParseError::UnmatchedEnd { line: number },
    }
}

/// The open scopes after all of `lines`, read from `scopes` on; or the
/// error of the first line that fails, numbered from 1.
pub open spec fn run(scopes: Seq<Scope>, lines: Seq<Seq<char>>) -> Result<
    Seq<Scope>,
    ParseError,
>
    decreases lines.len(),
{
    if lines.len() == 0 {
        Ok(scopes)
    } else {
        match run(scopes, lines.drop_last()) {
            Ok(before) => match advance(before, classify(lines.last())) {
                Some(after) => Ok(after),
                None => Err(line_error(classify(lines.last()), lines.len() as usize)),
            },
            Err(e) => Err(e),
        }
    }
}

/// What each line is.
pub open spec fn kinds_of(lines: Seq<Seq<char>>) -> Seq<Line> {
    Seq::new(lines.len(), |i: int| classify(lines[i]))
}

/// The open scopes after lines that are these, one by one; or the error of
/// the first that fails, numbered from 1.
pub open spec fn run_kinds(scopes: Seq<Scope>, kinds: Seq<Line>) -> Result<Seq<Scope>, ParseError>
    decreases kinds.len(),
{
    if kinds.len() == 0 {
        Ok(scopes)
    } else {
        match run_kinds(scopes, kinds.drop_last()) {
            Ok(before) => match advance(before, kinds.last()) {
                Some(after) => Ok(after),
                None => Err(line_error(kinds.last(), kinds.len() as usize)),
            },
            Err(e) => Err(e),
        }
    }
}

/// The entries that lines hold which are these, one by one.
pub open spec fn parse_kinds(kinds: Seq<Line>) -> Result<Seq<Entry>, ParseError> {
    match run_kinds(seq![root_scope()], kinds) {
        Ok(scopes) => {
            if scopes.len() == 1 {
                Ok(scopes[0].entries)
            } else {
                Err(ParseError::Unclosed { count: (scopes.len() - 1) as usize })
            }
        },
        Err(e) => Err(e),
    }
}

/// Reading lines is reading what they are.
pub proof fn lemma_run_kinds(scopes: Seq<Scope>, lines: Seq<Seq<char>>)
    ensures
        run(scopes, lines) == run_kinds(scopes, kinds_of(lines)),
    decreases lines.len(),
{
    if lines.len() > 0 {
        lemma_run_kinds(scopes, lines.drop_last());
        assert(kinds_of(lines).drop_last() =~= kinds_of(lines.drop_last()));
        assert(kinds_of(lines).last() == classify(lines.last()));
    }
}

/// The number of lines that close a struct.
pub open spec fn closed_structs(kinds: Seq<Line>) -> nat
    decreases kinds.len(),
{
    if kinds.len() == 0 {
        0
    } else if kinds.last() is Close {
        closed_structs(kinds.drop_last()) + 1
    } else {
        closed_structs(kinds.drop_last())
    }
}

/// The number of the first line that closes a struct behind `MAX_STRUCTS`
/// lines that close one, if there is such a line.
pub open spec fn overflow_line(kinds: Seq<Line>) -> Option<nat>
    decreases kinds.len(),
{
    if kinds.len() == 0 {
        None
    } else {
        match overflow_line(kinds.drop_last()) {
            Some(n) => Some(n),
            None => {
                if kinds.last() is Close && closed_structs(kinds.drop_last()) >= MAX_STRUCTS {
                    Some(kinds.len())
                } else {
                    None
                }
            },
        }
    }
}

/// The entries that lines hold which are these, in a document that holds
/// `MAX_STRUCTS` structs at most: the line that closes one more is an error,
/// unless an earlier line is one.
pub open spec fn read_kinds(kinds: Seq<Line>) -> Result<Seq<Entry>, ParseError> {
    match overflow_line(kinds) {
        Some(n) => match run_kinds(seq![root_scope()], kinds.take(n as int)) {
            Ok(_) => Err(ParseError::TooManyStructs { line: n as usize }),
            Err(e) => Err(e),
        },
        None => parse_kinds(kinds),
    }
}

/// The entries that a text holds, in a document that holds `MAX_STRUCTS`
/// structs at most.
pub open spec fn read_text(text: Seq<char>) -> Result<Seq<Entry>, ParseError> {
    read_kinds(kinds_of(lines_of(text)))
}

/// A line that closes too many structs in the first lines does so in all.
pub proof fn lemma_overflow_stays(kinds: Seq<Line>, upto: int)
    requires
        0 <= upto <= kinds.len(),
        overflow_line(kinds.take(upto)) is Some,
    ensures
        overflow_line(kinds) == overflow_line(kinds.take(upto)),
    decreases kinds.len() - upto,
{
    if upto < kinds.len() {
        assert(kinds.take(upto + 1).drop_last() =~= kinds.take(upto));
        lemma_overflow_stays(kinds, upto + 1);
    } else {
        assert(kinds.take(upto) =~= kinds);
    }
}

/// The line that closes too many structs is the first such line.
pub proof fn lemma_overflow_first(kinds: Seq<Line>)
    requires
        overflow_line(kinds) is Some,
    ensures
        1 <= overflow_line(kinds)->0 <= kinds.len(),
        overflow_line(kinds.take(overflow_line(kinds)->0 as int)) == overflow_line(kinds),
        overflow_line(kinds.take(overflow_line(kinds)->0 - 1)) is None,
    decreases kinds.len(),
{
    let n = overflow_line(kinds)->0 as int;
    if overflow_line(kinds.drop_last()) is Some {
        lemma_overflow_first(kinds.drop_last());
        assert(kinds.drop_last().take(n) =~= kinds.take(n));
        assert(kinds.drop_last().take(n - 1) =~= kinds.take(n - 1));
    } else {
        assert(kinds.take(n) =~= kinds);
        assert(kinds.take(n - 1) =~= kinds.drop_last());
    }
}

/// Where no line closes too many structs, reading is parsing.
pub proof fn lemma_read_is_parse(text: Seq<char>)
    ensures
        read_text(text) is Ok ==> parse_text(text) == read_text(text),
        overflow_line(kinds_of(lines_of(text))) is None ==> parse_text(text) == read_text(text),
{
    lemma_run_kinds(seq![root_scope()], lines_of(text));
    let kinds = kinds_of(lines_of(text));
    if overflow_line(kinds) is Some {
        lemma_overflow_first(kinds);
    }
}

/// The entries that the lines hold, or why they are no document.
pub open spec fn parse_lines(lines: Seq<Seq<char>>) -> Result<Seq<Entry>, ParseError> {
    match run(seq![root_scope()], lines) {
        Ok(scopes) => {
            if scopes.len() == 1 {
                Ok(scopes[0].entries)
            } else {
                Err(ParseError::Unclosed { count: (scopes.len() - 1) as usize })
            }
        },
        Err(e) => Err(e),
    }
}

/// The entries that a text holds, or why it is no document.
pub open spec fn parse_text(text: Seq<char>) -> Result<Seq<Entry>, ParseError> {
    parse_lines(lines_of(text))
}

/// An indented line that gives a name, a separator between two spaces, and
/// what follows.
pub open spec fn entry_line(depth: nat, name: Seq<char>, sep: char, tail: Seq<char>) -> Seq<char> {
    spaces(3 * depth) + name + seq![' ', sep, ' '] + tail
}

/// `name = value`, indented.
pub open spec fn value_line(depth: nat, name: Seq<char>, value: Seq<char>) -> Seq<char> {
    entry_line(depth, name, '=', value)
}

/// `name : struct.begin` and the trailing text, indented.
pub open spec fn open_line(depth: nat, name: Seq<char>, meta: Seq<char>) -> Seq<char> {
    entry_line(depth, name, ':', begin_word() + meta)
}

/// `struct.end`, indented.
pub open spec fn close_line(depth: nat) -> Seq<char> {
    spaces(3 * depth) + end_word()
}

/// The lines of one entry, indented by three spaces for each level of
/// nesting.
pub open spec fn render_entry(entry: Entry, depth: nat) -> Seq<Seq<char>>
    decreases entry,
{
    match entry {
        Entry::Value { name, value } => seq![value_line(depth, name, value)],
        Entry::Struct { name, meta, entries } => seq![open_line(depth, name, meta)]
            + render_entries(entries, depth + 1, entries.len()) + seq![close_line(depth)],
    }
}

/// The lines of the first `count` entries. The entries of a struct stand one
/// level deeper than its own two lines.
pub open spec fn render_entries(entries: Seq<Entry>, depth: nat, count: nat) -> Seq<Seq<char>>
    decreases entries, count,
{
    if count == 0 || count > entries.len() {
        Seq::empty()
    } else {
        render_entries(entries, depth, (count - 1) as nat) + render_entry(
            entries[count - 1],
            depth,
        )
    }
}

/// The text of a document: a value at the top stands unindented, and so do
/// the two lines of a struct at the top.
pub open spec fn render_text(entries: Seq<Entry>) -> Seq<char> {
    join_lines(render_entries(entries, 0, entries.len()))
}

/// A line as the parser reads it.
pub enum Token {
    Comment,
    Open { name: String, meta: String },
    Close,
    Value { name: String, value: String },
    StrayBegin,
    StrayEnd,
    Other,
}

impl View for Token {
    type V = Line;

    open spec fn view(&self) -> Line {
        match self {
            Token::Comment => Line::Comment,
            Token::Open { name, meta } => Line::Open { name: name@, meta: meta@ },
            Token::Close => Line::Close,
            Token::Value { name, value } => Line::Value { name: name@, value: value@ },
            Token::StrayBegin => Line::StrayBegin,
            Token::StrayEnd => Line::StrayEnd,
            Token::Other => Line::Other,
        }
    }
}

/// The two keywords of the grammar, as characters.
pub struct Keywords {
    pub begin: Vec<char>,
    pub end: Vec<char>,
}

impl Keywords {
    /// The two vectors hold the two keywords.
    pub open spec fn wf(&self) -> bool {
        self.begin@ == begin_word() && self.end@ == end_word()
    }

    /// The two keywords.
    pub fn new() -> (words: Keywords)
        ensures
            words.wf(),
    {
        Keywords { begin: chars_of("struct.begin"), end: chars_of("struct.end") }
    }
}

/// Splits a line at its first `sep`: the bounds of the trimmed text before
/// it, and where the text after it starts, blanks skipped.
fn split_line_at(line: &Vec<char>, sep: char) -> (parts: Option<(usize, usize, usize)>)
    ensures
        match parts {
            Some((lo, hi, rest)) => {
                &&& lo <= hi <= rest <= line.len()
                &&& split_at_sep(line@, sep) == Some(
                    (line@.subrange(lo as int, hi as int), line@.skip(rest as int)),
                )
            },
            None => split_at_sep(line@, sep) is None,
        },
{
    let start = skip_blanks_from(line, 0);
    assert(line@.skip(0) =~= line@);
    let at = find_char(line, start, sep);
    if at >= line.len() {
        return None;
    }
    let (lo, hi) = trim_range(line, start, at);
    let rest = skip_blanks_from(line, at + 1);
    proof {
        let s = line@.skip(start as int);
        assert(s.take(at - start) =~= line@.subrange(start as int, at as int));
        assert(s.skip(at - start + 1) =~= line@.skip(at + 1));
    }
    Some((lo, hi, rest))
}

/// Reads one line.
pub fn classify_line(line: &Vec<char>, words: &Keywords) -> (token: Token)
    requires
        words.wf(),
    ensures
        token@ == classify(line@),
{
    proof {
        reveal_strlit("//");
        reveal_strlit("struct.begin");
        reveal_strlit("struct.end");
    }
    let len = line.len();
    assert(line@.subrange(0, len as int) =~= line@);
    let first = skip_whitespace(line, 0, len);
    if len - first >= 2 && line[first] == '/' && line[first + 1] == '/' {
        proof {
            let t = trim_start(line@);
            assert(t[0] == line@[first as int]);
            assert(t[1] == line@[first + 1]);
            assert(comment_mark() =~= t.subrange(0, 2));
        }
        return Token::Comment;
    }
    proof {
        let t = trim_start(line@);
        if comment_mark().is_prefix_of(t) {
            assert(t.subrange(0, 2)[0] == t[0]);
            assert(t.subrange(0, 2)[1] == t[1]);
            assert(t[0] == line@[first as int]);
            assert(t[1] == line@[first + 1]);
        }
    }
    match split_line_at(line, ':') {
        Some((lo, hi, rest)) => {
            let found = matches_at(line, rest, &words.begin);
            proof {
                let r = line@.skip(rest as int);
                let n = begin_word().len() as int;
                if found {
                    assert(r.subrange(0, n) =~= line@.subrange(rest as int, rest + n));
                } else if begin_word().is_prefix_of(r) {
                    assert(r.subrange(0, n) =~= line@.subrange(rest as int, rest + n));
                }
                assert(found == begin_word().is_prefix_of(r));
            }
            if found {
                let from = rest + words.begin.len();
                assert(line@.skip(rest as int).skip(begin_word().len() as int) =~= line@.skip(
                    from as int,
                ));
                if !has_line_break_from(line, from) {
                    let name = string_of_range(line, lo, hi);
                    let meta = string_of_range(line, from, len);
                    assert(line@.subrange(from as int, len as int) =~= line@.skip(from as int));
                    return Token::Open { name, meta };
                }
            }
        },
        None => {},
    }
    let (lo, hi) = trim_range(line, 0, len);
    if hi - lo == words.end.len() && matches_at(line, lo, &words.end) {
        return Token::Close;
    }
    proof {
        if trim(line@) == end_word() {
            assert(line@.subrange(lo as int, hi as int).len() == end_word().len());
        }
    }
    if contains(line, &words.begin) {
        return Token::StrayBegin;
    }
    if contains(line, &words.end) {
        return Token::StrayEnd;
    }
    match split_line_at(line, '=') {
        Some((lo, hi, rest)) => {
            if !has_line_break_from(line, rest) {
                let name = string_of_range(line, lo, hi);
                let value = string_of_range(line, rest, len);
                assert(line@.subrange(rest as int, len as int) =~= line@.skip(rest as int));
                return Token::Value { name, value };
            }
        },
        None => {},
    }
    Token::Other
}

} // verus!
