//! Laws of the struct configuration grammar: what was read from a text
//! is read again, unchanged, from the text that is written for it.

use crate::cfg_syntax::{
    advance, begin_word, classify, close_line, closed_structs, comment_mark, end_word, entry_line,
    kinds_of, lemma_read_is_parse, lemma_run_kinds, open_line, open_parts, overflow_line,
    parse_text, read_text, render_entries, render_entry, render_text, root_scope, run, run_kinds,
    split_at_sep, value_line, with_entry, Entry, Line, ParseError, Scope, MAX_STRUCTS,
};
use crate::text::{
    contains_text, first_index_of, has_line_break, is_blank, is_plain_line, is_whitespace,
    lemma_first_index_of, lemma_lines_of_join, lines_of, occurs_at, skip_blanks, spaces, strip_cr,
    trim, trim_end, trim_start,
};
use crate::text_laws::{
    is_trimmed, lemma_absent_across, lemma_char_absent, lemma_contains_skip,
    lemma_contains_skip_blanks, lemma_contains_take, lemma_contains_trim, lemma_first_index_after,
    lemma_skip_blanks, lemma_skip_leading_spaces, lemma_trim_end, lemma_trim_is_trimmed,
    lemma_trim_occurs, lemma_trim_start_after_blanks, lemma_trim_start_append,
    lemma_trim_with_space, starts_firm,
};
use vstd::prelude::*;

verus! {

/// A name as a line gives it: trimmed, without the separator, without a
/// line feed, and not the start of a comment.
pub open spec fn is_clean_name(name: Seq<char>, sep: char) -> bool {
    &&& is_trimmed(name)
    &&& !contains_text(name, seq![sep])
    &&& !contains_text(name, seq!['\n'])
    &&& !comment_mark().is_prefix_of(name)
}

/// A value as a line gives it, beside a name that such a line gives.
pub open spec fn value_ok(name: Seq<char>, value: Seq<char>) -> bool {
    &&& is_clean_name(name, '=')
    &&& starts_firm(value)
    &&& !has_line_break(value)
    &&& !contains_text(name, begin_word())
    &&& !contains_text(name, end_word())
    &&& !contains_text(value, begin_word())
    &&& !contains_text(value, end_word())
}

/// Name and trailing text as a line that opens a struct gives them.
pub open spec fn open_ok(name: Seq<char>, meta: Seq<char>) -> bool {
    is_clean_name(name, ':') && !has_line_break(meta)
}

/// An entry whose names and texts are such as lines give them.
pub open spec fn entry_ok(entry: Entry) -> bool
    decreases entry,
{
    match entry {
        Entry::Value { name, value } => value_ok(name, value),
        Entry::Struct { name, meta, entries } => open_ok(name, meta) && forall|i: int|
            0 <= i < entries.len() ==> entry_ok(#[trigger] entries[i]),
    }
}

/// Entries that are all such as lines give them.
pub open spec fn entries_ok(entries: Seq<Entry>) -> bool {
    forall|i: int| 0 <= i < entries.len() ==> entry_ok(#[trigger] entries[i])
}

/// A scope whose name, trailing text and entries are such as lines give them.
pub open spec fn scope_ok(scope: Scope) -> bool {
    open_ok(scope.name, scope.meta) && entries_ok(scope.entries)
}

/// Scopes that are all such as lines give them.
pub open spec fn scopes_ok(scopes: Seq<Scope>) -> bool {
    forall|i: int| 0 <= i < scopes.len() ==> scope_ok(#[trigger] scopes[i])
}

/// The name that splitting a line yields.
pub open spec fn split_name(line: Seq<char>, sep: char) -> Seq<char> {
    split_at_sep(line, sep).unwrap().0
}

/// What stands behind the separator where a line is split.
pub open spec fn split_rest(line: Seq<char>, sep: char) -> Seq<char> {
    split_at_sep(line, sep).unwrap().1
}

/// The two keywords, character by character.
pub proof fn lemma_keywords()
    ensures
        begin_word() == seq!['s', 't', 'r', 'u', 'c', 't', '.', 'b', 'e', 'g', 'i', 'n'],
        end_word() == seq!['s', 't', 'r', 'u', 'c', 't', '.', 'e', 'n', 'd'],
        comment_mark() == seq!['/', '/'],
{
    reveal_strlit("struct.begin");
    reveal_strlit("struct.end");
    reveal_strlit("//");
    assert(begin_word() =~= seq!['s', 't', 'r', 'u', 'c', 't', '.', 'b', 'e', 'g', 'i', 'n']);
    assert(end_word() =~= seq!['s', 't', 'r', 'u', 'c', 't', '.', 'e', 'n', 'd']);
    assert(comment_mark() =~= seq!['/', '/']);
}

/// Neither keyword holds a space or one of the two separators.
pub proof fn lemma_keyword_chars(sep: Seq<char>)
    requires
        forall|i: int| 0 <= i < sep.len() ==> sep[i] == ' ' || sep[i] == '=' || sep[i] == ':',
    ensures
        forall|i: int, j: int|
            0 <= i < sep.len() && 0 <= j < begin_word().len() ==> sep[i] != begin_word()[j],
        forall|i: int, j: int|
            0 <= i < sep.len() && 0 <= j < end_word().len() ==> sep[i] != end_word()[j],
{
    lemma_keywords();
}

/// A blank is whitespace.
pub proof fn lemma_blank_is_whitespace(c: char)
    requires
        is_blank(c),
    ensures
        is_whitespace(c),
{
}

/// What splitting a line yields, as far as the law needs it: a clean name,
/// and a rest that starts with no blank.
pub proof fn lemma_split_source(line: Seq<char>, sep: char)
    requires
        split_at_sep(line, sep) is Some,
        !comment_mark().is_prefix_of(trim_start(line)),
        !contains_text(line, seq!['\n']),
    ensures
        is_clean_name(split_name(line, sep), sep),
        starts_firm(split_rest(line, sep)),
{
    let s = skip_blanks(line);
    let i = first_index_of(s, sep) as int;
    let a = s.take(i);
    let name = trim(a);
    let rest = skip_blanks(s.skip(i + 1));
    lemma_trim_is_trimmed(a);
    lemma_skip_blanks(s.skip(i + 1));
    lemma_first_index_of(s, sep);
    if contains_text(name, seq![sep]) {
        lemma_contains_trim(a, seq![sep]);
        let j = choose|j: int| occurs_at(a, seq![sep], j);
        assert(a.subrange(j, j + 1)[0] == a[j]);
        assert(a[j] == s[j]);
    }
    if contains_text(name, seq!['\n']) {
        lemma_part_of_line(line, sep, seq!['\n']);
    }
    if comment_mark().is_prefix_of(name) {
        lemma_keywords();
        let x = trim_start(a);
        lemma_trim_end(x);
        lemma_trim_start_append(a, s.skip(i));
        assert(a + s.skip(i) =~= s);
        lemma_trim_start_after_blanks(line);
        let t = trim_start(line);
        assert(t == x + s.skip(i));
        assert(name.subrange(0, 2) == comment_mark());
        assert(t.subrange(0, 2) =~= name.subrange(0, 2)) by {
            assert(name[0] == x[0]);
            assert(name[1] == x[1]);
            assert(name.subrange(0, 2)[0] == name[0]);
            assert(name.subrange(0, 2)[1] == name[1]);
        }
    }
}

/// What occurs in a part that splitting yields occurs in the line.
pub proof fn lemma_part_of_line(line: Seq<char>, sep: char, pat: Seq<char>)
    requires
        split_at_sep(line, sep) is Some,
    ensures
        contains_text(split_name(line, sep), pat) ==> contains_text(line, pat),
        contains_text(split_rest(line, sep), pat) ==> contains_text(line, pat),
{
    let s = skip_blanks(line);
    let i = first_index_of(s, sep) as int;
    lemma_first_index_of(s, sep);
    if contains_text(trim(s.take(i)), pat) {
        lemma_contains_trim(s.take(i), pat);
        lemma_contains_take(s, i, pat);
        lemma_contains_skip_blanks(line, pat);
    }
    if contains_text(skip_blanks(s.skip(i + 1)), pat) {
        lemma_contains_skip_blanks(s.skip(i + 1), pat);
        lemma_contains_skip(s, i + 1, pat);
        lemma_contains_skip_blanks(line, pat);
    }
}

/// A line that gives a value gives a good one.
pub proof fn lemma_value_source(line: Seq<char>)
    requires
        classify(line) is Value,
        !contains_text(line, seq!['\n']),
    ensures
        value_ok(classify(line)->Value_name, classify(line)->Value_value),
{
    lemma_split_source(line, '=');
    lemma_part_of_line(line, '=', begin_word());
    lemma_part_of_line(line, '=', end_word());
}

/// A line that opens a struct gives a good name and trailing text.
pub proof fn lemma_open_source(line: Seq<char>)
    requires
        classify(line) is Open,
        !contains_text(line, seq!['\n']),
    ensures
        open_ok(classify(line)->Open_name, classify(line)->Open_meta),
{
    lemma_split_source(line, ':');
}

/// A line that opens a struct holds the keyword.
pub proof fn lemma_open_holds_keyword(line: Seq<char>)
    requires
        open_parts(line) is Some,
    ensures
        contains_text(line, begin_word()),
{
    let rest = split_rest(line, ':');
    assert(rest.subrange(0, begin_word().len() as int) == begin_word());
    assert(occurs_at(rest, begin_word(), 0));
    lemma_part_of_line(line, ':', begin_word());
}

/// The line written for a clean name splits into the name and what was
/// written behind the separator, and is no comment.
pub proof fn lemma_entry_line_splits(depth: nat, name: Seq<char>, sep: char, tail: Seq<char>)
    requires
        is_clean_name(name, sep),
        starts_firm(tail),
        sep == '=' || sep == ':',
    ensures
        split_at_sep(entry_line(depth, name, sep, tail), sep) == Some((name, tail)),
        !comment_mark().is_prefix_of(trim_start(entry_line(depth, name, sep, tail))),
{
    lemma_keywords();
    let line = entry_line(depth, name, sep, tail);
    let w = name + seq![' ', sep, ' '] + tail;
    assert(line =~= spaces(3 * depth) + w);
    lemma_skip_leading_spaces(3 * depth, w);
    let gap = seq![' '] + tail;
    assert(gap.skip(1) =~= tail);
    assert(gap[0] == ' ');
    assert(skip_blanks(gap) == skip_blanks(tail));
    assert(skip_blanks(tail) == tail);
    if name.len() > 0 {
        assert(w[0] == name[0]);
        if is_blank(name[0]) {
            lemma_blank_is_whitespace(name[0]);
        }
        assert(skip_blanks(w) == w);
        assert(trim_start(w) == w);
        lemma_char_absent(name, sep);
        let a = name + seq![' '];
        assert forall|i: int| 0 <= i < a.len() implies a[i] != sep by {
            if i < name.len() {
                assert(a[i] == name[i]);
            }
        }
        assert(w =~= a + seq![sep] + gap);
        lemma_first_index_after(a, sep, gap);
        assert(w.take(a.len() as int) =~= a);
        assert(w.skip(a.len() as int + 1) =~= gap);
        lemma_trim_with_space(name);
        if comment_mark().is_prefix_of(w) {
            assert(w.subrange(0, 2)[0] == w[0]);
            assert(w.subrange(0, 2)[1] == w[1]);
            if name.len() >= 2 {
                assert(w[1] == name[1]);
                assert(name.subrange(0, 2) =~= comment_mark());
            } else {
                assert(w[1] == ' ');
            }
        }
    } else {
        let u = seq![sep] + gap;
        assert(w =~= seq![' '] + u);
        assert(w[0] == ' ');
        assert(w.skip(1) =~= u);
        assert(u[0] == sep);
        assert(skip_blanks(w) == skip_blanks(u));
        assert(skip_blanks(u) == u);
        assert(trim_start(w) == trim_start(u));
        assert(trim_start(u) == u);
        assert(first_index_of(u, sep) == 0);
        assert(u.take(0) =~= Seq::<char>::empty());
        assert(trim(Seq::<char>::empty()) =~= Seq::<char>::empty());
        assert(u.skip(1) =~= gap);
        assert(name =~= Seq::<char>::empty());
        if comment_mark().is_prefix_of(u) {
            assert(u.subrange(0, 2)[0] == u[0]);
        }
    }
}

/// A written line holds a keyword only where its name or its tail does.
pub proof fn lemma_entry_line_absent(
    depth: nat,
    name: Seq<char>,
    sep: char,
    tail: Seq<char>,
    pat: Seq<char>,
)
    requires
        sep == '=' || sep == ':',
        pat == begin_word() || pat == end_word(),
        !contains_text(name, pat),
        !contains_text(tail, pat),
    ensures
        !contains_text(entry_line(depth, name, sep, tail), pat),
{
    lemma_keywords();
    let mid = seq![' ', sep, ' '];
    lemma_keyword_chars(mid);
    lemma_absent_across(name, mid, tail, pat);
    let w = name + mid + tail;
    let line = entry_line(depth, name, sep, tail);
    if depth == 0 {
        assert(spaces(0) + w =~= w);
        assert(line =~= w);
    } else {
        let none = Seq::<char>::empty();
        lemma_keyword_chars(spaces(3 * depth));
        assert forall|i: int| !occurs_at(none, pat, i) by {}
        lemma_absent_across(none, spaces(3 * depth), w, pat);
        assert(line =~= none + spaces(3 * depth) + w);
    }
}

/// The line written for a good value is read as that value, and is a plain
/// line.
pub proof fn lemma_value_line(depth: nat, name: Seq<char>, value: Seq<char>)
    requires
        value_ok(name, value),
    ensures
        classify(value_line(depth, name, value)) == (Line::Value { name, value }),
        is_plain_line(value_line(depth, name, value)),
{
    let line = value_line(depth, name, value);
    lemma_entry_line_splits(depth, name, '=', value);
    lemma_entry_line_absent(depth, name, '=', value, begin_word());
    lemma_entry_line_absent(depth, name, '=', value, end_word());
    if open_parts(line) is Some {
        lemma_open_holds_keyword(line);
    }
    if trim(line) == end_word() {
        lemma_trim_occurs(line, end_word());
    }
    lemma_entry_line_plain(depth, name, '=', value);
}

/// A written line is plain where its name holds no line feed and its tail
/// no line break.
pub proof fn lemma_entry_line_plain(depth: nat, name: Seq<char>, sep: char, tail: Seq<char>)
    requires
        sep == '=' || sep == ':',
        !contains_text(name, seq!['\n']),
        !has_line_break(tail),
    ensures
        is_plain_line(entry_line(depth, name, sep, tail)),
{
    let line = entry_line(depth, name, sep, tail);
    lemma_char_absent(name, '\n');
    let k = (3 * depth) as int;
    assert forall|i: int| 0 <= i < line.len() implies line[i] != '\n' by {
        if i < k {
        } else if i < k + name.len() {
            assert(line[i] == name[i - k]);
        } else if i < k + name.len() + 3 {
        } else {
            assert(line[i] == tail[i - k - name.len() - 3]);
        }
    }
    if tail.len() > 0 {
        assert(line.last() == tail.last());
    } else {
        assert(line.last() == ' ');
    }
}

/// The line written to open a struct is read as opening it, and is a plain
/// line.
pub proof fn lemma_open_line(depth: nat, name: Seq<char>, meta: Seq<char>)
    requires
        open_ok(name, meta),
    ensures
        classify(open_line(depth, name, meta)) == (Line::Open { name, meta }),
        is_plain_line(open_line(depth, name, meta)),
{
    lemma_keywords();
    let tail = begin_word() + meta;
    let line = open_line(depth, name, meta);
    assert(tail[0] == 's');
    lemma_entry_line_splits(depth, name, ':', tail);
    assert(tail.subrange(0, begin_word().len() as int) =~= begin_word());
    assert(tail.skip(begin_word().len() as int) =~= meta);
    assert(!has_line_break(tail)) by {
        if has_line_break(tail) {
            let i = choose|i: int| 0 <= i < tail.len() && (tail[i] == '\r' || tail[i] == '\n');
            if i >= 12 {
                assert(meta[i - 12] == tail[i]);
            }
        }
    }
    lemma_entry_line_plain(depth, name, ':', tail);
}

/// The line written to close a struct is read as closing it, and is a
/// plain line.
pub proof fn lemma_close_line(depth: nat)
    ensures
        classify(close_line(depth)) == Line::Close,
        is_plain_line(close_line(depth)),
{
    lemma_keywords();
    let word = end_word();
    let line = close_line(depth);
    lemma_skip_leading_spaces(3 * depth, word);
    assert(trim_start(word) == word);
    assert(skip_blanks(word) == word);
    assert(trim_end(word) == word);
    if comment_mark().is_prefix_of(word) {
        assert(word.subrange(0, 2)[0] == word[0]);
    }
    lemma_first_index_of(word, ':');
    if first_index_of(word, ':') < word.len() {
        let i = first_index_of(word, ':') as int;
        assert(word[i] == ':');
    }
    assert(line.last() == 'd');
    assert forall|i: int| 0 <= i < line.len() implies line[i] != '\n' by {
        if i >= 3 * depth {
            assert(line[i] == word[i - 3 * depth]);
        }
    }
}

/// A scope with more entries behind those it has.
pub open spec fn with_entries(scope: Scope, entries: Seq<Entry>) -> Scope {
    Scope { name: scope.name, meta: scope.meta, entries: scope.entries + entries }
}

/// Reading two runs of lines one after the other reads them from where the
/// first run ended.
pub proof fn lemma_run_concat(
    scopes: Seq<Scope>,
    a: Seq<Seq<char>>,
    b: Seq<Seq<char>>,
    mid: Seq<Scope>,
    end: Seq<Scope>,
)
    requires
        run(scopes, a) == Ok::<Seq<Scope>, ParseError>(mid),
        run(mid, b) == Ok::<Seq<Scope>, ParseError>(end),
    ensures
        run(scopes, a + b) == Ok::<Seq<Scope>, ParseError>(end),
    decreases b.len(),
{
    if b.len() == 0 {
        assert(a + b =~= a);
    } else {
        let before = run(mid, b.drop_last())->Ok_0;
        lemma_run_concat(scopes, a, b.drop_last(), mid, before);
        assert((a + b).drop_last() =~= a + b.drop_last());
        assert((a + b).last() == b.last());
    }
}

/// Reading a single line.
pub proof fn lemma_run_one(scopes: Seq<Scope>, line: Seq<char>)
    requires
        advance(scopes, classify(line)) is Some,
    ensures
        run(scopes, seq![line]) == Ok::<Seq<Scope>, ParseError>(
            advance(scopes, classify(line))->0,
        ),
{
    let one = seq![line];
    assert(one.drop_last() =~= Seq::<Seq<char>>::empty());
    assert(one.last() == line);
    assert(run(scopes, one.drop_last()) == Ok::<Seq<Scope>, ParseError>(scopes));
}

/// Reading the lines written for a good entry adds the entry to the
/// innermost scope.
pub proof fn lemma_run_entry(scopes: Seq<Scope>, entry: Entry, depth: nat)
    requires
        scopes.len() >= 1,
        entry_ok(entry),
    ensures
        run(scopes, render_entry(entry, depth)) == Ok::<Seq<Scope>, ParseError>(
            scopes.drop_last().push(with_entry(scopes.last(), entry)),
        ),
    decreases entry, 0nat,
{
    match entry {
        Entry::Value { name, value } => {
            lemma_value_line(depth, name, value);
            lemma_run_one(scopes, value_line(depth, name, value));
        },
        Entry::Struct { name, meta, entries } => {
            let opened = scopes.push(Scope { name, meta, entries: Seq::empty() });
            let filled = scopes.push(Scope { name, meta, entries });
            let closed = scopes.drop_last().push(with_entry(scopes.last(), entry));
            let first = seq![open_line(depth, name, meta)];
            let body = render_entries(entries, depth + 1, entries.len());
            let last = seq![close_line(depth)];
            lemma_open_line(depth, name, meta);
            lemma_run_one(scopes, open_line(depth, name, meta));
            lemma_run_entries(opened, entries, depth + 1, entries.len());
            assert(entries.take(entries.len() as int) =~= entries);
            assert(opened.drop_last() =~= scopes);
            assert(with_entries(opened.last(), entries).entries =~= entries);
            assert(opened.drop_last().push(with_entries(opened.last(), entries)) =~= filled);
            lemma_close_line(depth);
            assert(filled.drop_last() =~= scopes);
            assert(advance(filled, Line::Close) == Some(closed));
            lemma_run_one(filled, close_line(depth));
            lemma_run_concat(scopes, first, body, opened, filled);
            lemma_run_concat(scopes, first + body, last, filled, closed);
        },
    }
}

/// Reading the lines written for good entries adds them to the innermost
/// scope.
pub proof fn lemma_run_entries(scopes: Seq<Scope>, entries: Seq<Entry>, depth: nat, count: nat)
    requires
        scopes.len() >= 1,
        entries_ok(entries),
        count <= entries.len(),
    ensures
        run(scopes, render_entries(entries, depth, count)) == Ok::<Seq<Scope>, ParseError>(
            scopes.drop_last().push(with_entries(scopes.last(), entries.take(count as int))),
        ),
    decreases entries, count,
{
    let top = scopes.last();
    if count == 0 {
        assert(top.entries + entries.take(0) =~= top.entries);
        assert(scopes.drop_last().push(with_entries(top, entries.take(0))) =~= scopes);
    } else {
        let n = (count - 1) as nat;
        let mid = scopes.drop_last().push(with_entries(top, entries.take(n as int)));
        let entry = entries[n as int];
        lemma_run_entries(scopes, entries, depth, n);
        lemma_run_entry(mid, entry, depth);
        let end = mid.drop_last().push(with_entry(mid.last(), entry));
        assert(mid.drop_last() =~= scopes.drop_last());
        assert(top.entries + entries.take(count as int) =~= (top.entries + entries.take(
            n as int,
        )).push(entry));
        lemma_run_concat(
            scopes,
            render_entries(entries, depth, n),
            render_entry(entry, depth),
            mid,
            end,
        );
    }
}

/// The lines written for a good entry are plain.
pub proof fn lemma_entry_plain(entry: Entry, depth: nat)
    requires
        entry_ok(entry),
    ensures
        forall|i: int|
            0 <= i < render_entry(entry, depth).len() ==> is_plain_line(
                #[trigger] render_entry(entry, depth)[i],
            ),
    decreases entry, 0nat,
{
    let lines = render_entry(entry, depth);
    match entry {
        Entry::Value { name, value } => {
            lemma_value_line(depth, name, value);
            assert forall|i: int| 0 <= i < lines.len() implies is_plain_line(
                #[trigger] lines[i],
            ) by {
                assert(lines[i] == value_line(depth, name, value));
            }
        },
        Entry::Struct { name, meta, entries } => {
            lemma_open_line(depth, name, meta);
            lemma_close_line(depth);
            lemma_entries_plain(entries, depth + 1, entries.len());
            let body = render_entries(entries, depth + 1, entries.len());
            assert forall|i: int| 0 <= i < lines.len() implies is_plain_line(
                #[trigger] lines[i],
            ) by {
                if i == 0 {
                    assert(lines[i] == open_line(depth, name, meta));
                } else if i <= body.len() {
                    assert(lines[i] == body[i - 1]);
                } else {
                    assert(lines[i] == close_line(depth));
                }
            }
        },
    }
}

/// The lines written for good entries are plain.
pub proof fn lemma_entries_plain(entries: Seq<Entry>, depth: nat, count: nat)
    requires
        entries_ok(entries),
        count <= entries.len(),
    ensures
        forall|i: int|
            0 <= i < render_entries(entries, depth, count).len() ==> is_plain_line(
                #[trigger] render_entries(entries, depth, count)[i],
            ),
    decreases entries, count,
{
    if count > 0 {
        lemma_entries_plain(entries, depth, (count - 1) as nat);
        lemma_entry_plain(entries[count - 1], depth);
        let head = render_entries(entries, depth, (count - 1) as nat);
        let tail = render_entry(entries[count - 1], depth);
        let lines = render_entries(entries, depth, count);
        assert forall|i: int| 0 <= i < lines.len() implies is_plain_line(#[trigger] lines[i]) by {
            if i < head.len() {
                assert(lines[i] == head[i]);
            } else {
                assert(lines[i] == tail[i - head.len()]);
            }
        }
    }
}

/// No line of a text holds a line feed.
pub proof fn lemma_lines_hold_no_feed(text: Seq<char>)
    ensures
        forall|i: int|
            0 <= i < lines_of(text).len() ==> !contains_text(
                #[trigger] lines_of(text)[i],
                seq!['\n'],
            ),
    decreases text.len(),
{
    if text.len() > 0 {
        lemma_first_index_of(text, '\n');
        let k = first_index_of(text, '\n') as int;
        let first = if k >= text.len() {
            text
        } else {
            strip_cr(text.take(k))
        };
        assert(!contains_text(first, seq!['\n'])) by {
            if contains_text(first, seq!['\n']) {
                let j = choose|j: int| occurs_at(first, seq!['\n'], j);
                assert(first.subrange(j, j + 1)[0] == first[j]);
                assert(first[j] == text[j]);
            }
        }
        if k < text.len() {
            lemma_lines_hold_no_feed(text.skip(k + 1));
        }
        let lines = lines_of(text);
        assert forall|i: int| 0 <= i < lines.len() implies !contains_text(
            #[trigger] lines[i],
            seq!['\n'],
        ) by {
            if i == 0 {
                assert(lines[i] == first);
            } else {
                assert(lines[i] == lines_of(text.skip(k + 1))[i - 1]);
            }
        }
    }
}

/// Reading keeps every scope good.
pub proof fn lemma_run_keeps_ok(scopes: Seq<Scope>, lines: Seq<Seq<char>>)
    requires
        scopes.len() >= 1,
        scopes_ok(scopes),
        forall|i: int| 0 <= i < lines.len() ==> !contains_text(#[trigger] lines[i], seq!['\n']),
        run(scopes, lines) is Ok,
    ensures
        scopes_ok(run(scopes, lines)->Ok_0),
        run(scopes, lines)->Ok_0.len() >= 1,
    decreases lines.len(),
{
    if lines.len() > 0 {
        let line = lines.last();
        lemma_run_keeps_ok(scopes, lines.drop_last());
        let before = run(scopes, lines.drop_last())->Ok_0;
        let after = run(scopes, lines)->Ok_0;
        match classify(line) {
            Line::Open { name, meta } => {
                lemma_open_source(line);
            },
            Line::Value { name, value } => {
                lemma_value_source(line);
                let top = before.last();
                let entry = Entry::Value { name, value };
                assert(scope_ok(with_entry(top, entry))) by {
                    assert(scope_ok(top));
                    assert(entry_ok(entry));
                }
            },
            Line::Close => {
                let done = before.last();
                let outer = before.drop_last();
                let entry = Entry::Struct {
                    name: done.name,
                    meta: done.meta,
                    entries: done.entries,
                };
                assert(scope_ok(done));
                assert(entry_ok(entry));
                assert(scope_ok(outer.last()));
                assert(scope_ok(with_entry(outer.last(), entry)));
            },
            _ => {},
        }
    }
}

/// What was read from a text is such as lines give it, and its text splits
/// into the lines that were written for it.
pub proof fn lemma_parsed_entries(text: Seq<char>)
    requires
        parse_text(text) is Ok,
    ensures
        entries_ok(parse_text(text)->Ok_0),
        lines_of(render_text(parse_text(text)->Ok_0)) == render_entries(
            parse_text(text)->Ok_0,
            0,
            parse_text(text)->Ok_0.len(),
        ),
{
    lemma_keywords();
    let entries = parse_text(text)->Ok_0;
    let start = seq![root_scope()];
    assert(scope_ok(root_scope())) by {
        let none = Seq::<char>::empty();
        assert forall|i: int| !occurs_at(none, seq![':'], i) by {}
        assert forall|i: int| !occurs_at(none, seq!['\n'], i) by {}
    }
    lemma_lines_hold_no_feed(text);
    lemma_run_keeps_ok(start, lines_of(text));
    let lines = render_entries(entries, 0, entries.len());
    lemma_entries_plain(entries, 0, entries.len());
    lemma_lines_of_join(lines);
}

/// Round trip: the text written for a document that was read from a text
/// reads back as the same document.
pub proof fn lemma_round_trip(text: Seq<char>)
    requires
        parse_text(text) is Ok,
    ensures
        parse_text(render_text(parse_text(text)->Ok_0)) == parse_text(text),
{
    let entries = parse_text(text)->Ok_0;
    let start = seq![root_scope()];
    lemma_parsed_entries(text);
    lemma_run_entries(start, entries, 0, entries.len());
    assert(entries.take(entries.len() as int) =~= entries);
    assert(root_scope().entries + entries =~= entries);
    let end = start.drop_last().push(with_entries(root_scope(), entries));
    assert(end.len() == 1);
    assert(end[0].entries == entries);
}

/// The number of structs in an entry, itself and those within.
pub open spec fn struct_count(entry: Entry) -> nat
    decreases entry,
{
    match entry {
        Entry::Value { .. } => 0,
        Entry::Struct { entries, .. } => 1 + structs_in(entries, entries.len()),
    }
}

/// The number of structs in the first `count` entries.
pub open spec fn structs_in(entries: Seq<Entry>, count: nat) -> nat
    decreases entries, count,
{
    if count == 0 || count > entries.len() {
        0
    } else {
        structs_in(entries, (count - 1) as nat) + struct_count(entries[count - 1])
    }
}

/// The number of structs in the entries of all scopes.
pub open spec fn scopes_structs(scopes: Seq<Scope>) -> nat
    decreases scopes.len(),
{
    if scopes.len() == 0 {
        0
    } else {
        scopes_structs(scopes.drop_last()) + structs_in(
            scopes.last().entries,
            scopes.last().entries.len(),
        )
    }
}

/// The structs among the first entries do not depend on what follows.
pub proof fn lemma_structs_prefix(a: Seq<Entry>, b: Seq<Entry>, count: nat)
    requires
        count <= a.len(),
        count <= b.len(),
        forall|i: int| 0 <= i < count ==> a[i] == b[i],
    ensures
        structs_in(a, count) == structs_in(b, count),
    decreases count,
{
    if count > 0 {
        lemma_structs_prefix(a, b, (count - 1) as nat);
    }
}

/// One more entry adds its structs.
pub proof fn lemma_structs_push(entries: Seq<Entry>, entry: Entry)
    ensures
        structs_in(entries.push(entry), entries.len() + 1) == structs_in(entries, entries.len())
            + struct_count(entry),
{
    lemma_structs_prefix(entries, entries.push(entry), entries.len());
}

/// No line closes too many structs exactly where no more than `MAX_STRUCTS`
/// lines close one.
pub proof fn lemma_overflow_none(kinds: Seq<Line>)
    ensures
        overflow_line(kinds) is None <==> closed_structs(kinds) <= MAX_STRUCTS,
    decreases kinds.len(),
{
    if kinds.len() > 0 {
        lemma_overflow_none(kinds.drop_last());
    }
}

/// Every line that closes a struct adds one struct to the scopes.
pub proof fn lemma_run_counts(scopes: Seq<Scope>, kinds: Seq<Line>)
    requires
        scopes.len() >= 1,
        run_kinds(scopes, kinds) is Ok,
    ensures
        run_kinds(scopes, kinds)->Ok_0.len() >= 1,
        scopes_structs(run_kinds(scopes, kinds)->Ok_0) == scopes_structs(scopes) + closed_structs(
            kinds,
        ),
    decreases kinds.len(),
{
    if kinds.len() > 0 {
        lemma_run_counts(scopes, kinds.drop_last());
        let before = run_kinds(scopes, kinds.drop_last())->Ok_0;
        let after = run_kinds(scopes, kinds)->Ok_0;
        let none = Seq::<Entry>::empty();
        match kinds.last() {
            Line::Open { name, meta } => {
                assert(after == before.push(Scope { name, meta, entries: none }));
                assert(after.drop_last() =~= before);
                assert(after.last().entries == none);
                assert(structs_in(none, 0) == 0);
            },
            Line::Value { name, value } => {
                let entry = Entry::Value { name, value };
                assert(after == before.drop_last().push(with_entry(before.last(), entry)));
                assert(after.drop_last() =~= before.drop_last());
                assert(after.last().entries == before.last().entries.push(entry));
                lemma_structs_push(before.last().entries, entry);
                assert(struct_count(entry) == 0);
            },
            Line::Close => {
                let done = before.last();
                let outer = before.drop_last();
                let entry = Entry::Struct {
                    name: done.name,
                    meta: done.meta,
                    entries: done.entries,
                };
                assert(after == outer.drop_last().push(with_entry(outer.last(), entry)));
                assert(after.drop_last() =~= outer.drop_last());
                assert(after.last().entries == outer.last().entries.push(entry));
                lemma_structs_push(outer.last().entries, entry);
                assert(struct_count(entry) == 1 + structs_in(done.entries, done.entries.len()));
                assert(scopes_structs(before) == scopes_structs(outer) + structs_in(
                    done.entries,
                    done.entries.len(),
                ));
                assert(scopes_structs(outer) == scopes_structs(outer.drop_last()) + structs_in(
                    outer.last().entries,
                    outer.last().entries.len(),
                ));
            },
            _ => {
                assert(after == before);
            },
        }
    }
}

/// The lines of two runs close as many structs as both runs do.
pub proof fn lemma_closed_concat(a: Seq<Line>, b: Seq<Line>)
    ensures
        closed_structs(a + b) == closed_structs(a) + closed_structs(b),
    decreases b.len(),
{
    if b.len() == 0 {
        assert(a + b =~= a);
    } else {
        lemma_closed_concat(a, b.drop_last());
        assert((a + b).drop_last() =~= a + b.drop_last());
        assert((a + b).last() == b.last());
    }
}

/// A single line closes one struct or none.
pub proof fn lemma_closed_one(line: Line)
    ensures
        closed_structs(seq![line]) == if line is Close {
            1nat
        } else {
            0nat
        },
{
    let one = seq![line];
    assert(one.drop_last() =~= Seq::<Line>::empty());
    assert(one.last() == line);
    assert(closed_structs(one.drop_last()) == 0);
}

/// The lines written for a good entry close as many structs as it has.
pub proof fn lemma_entry_closes(entry: Entry, depth: nat)
    requires
        entry_ok(entry),
    ensures
        closed_structs(kinds_of(render_entry(entry, depth))) == struct_count(entry),
    decreases entry, 0nat,
{
    match entry {
        Entry::Value { name, value } => {
            lemma_value_line(depth, name, value);
            let line = value_line(depth, name, value);
            assert(kinds_of(seq![line]) =~= seq![classify(line)]);
            lemma_closed_one(classify(line));
        },
        Entry::Struct { name, meta, entries } => {
            lemma_open_line(depth, name, meta);
            lemma_close_line(depth);
            lemma_entries_close(entries, depth + 1, entries.len());
            let first = seq![open_line(depth, name, meta)];
            let body = render_entries(entries, depth + 1, entries.len());
            let last = seq![close_line(depth)];
            assert(kinds_of(first) =~= seq![classify(open_line(depth, name, meta))]);
            assert(kinds_of(last) =~= seq![classify(close_line(depth))]);
            lemma_closed_one(classify(open_line(depth, name, meta)));
            lemma_closed_one(classify(close_line(depth)));
            assert(kinds_of(first + body + last) =~= kinds_of(first) + kinds_of(body) + kinds_of(
                last,
            ));
            lemma_closed_concat(kinds_of(first), kinds_of(body));
            lemma_closed_concat(kinds_of(first) + kinds_of(body), kinds_of(last));
        },
    }
}

/// The lines written for good entries close as many structs as they have.
pub proof fn lemma_entries_close(entries: Seq<Entry>, depth: nat, count: nat)
    requires
        entries_ok(entries),
        count <= entries.len(),
    ensures
        closed_structs(kinds_of(render_entries(entries, depth, count))) == structs_in(
            entries,
            count,
        ),
    decreases entries, count,
{
    if count == 0 {
        assert(kinds_of(render_entries(entries, depth, 0)) =~= Seq::<Line>::empty());
    } else {
        let head = render_entries(entries, depth, (count - 1) as nat);
        let tail = render_entry(entries[count - 1], depth);
        lemma_entries_close(entries, depth, (count - 1) as nat);
        lemma_entry_closes(entries[count - 1], depth);
        assert(kinds_of(head + tail) =~= kinds_of(head) + kinds_of(tail));
        lemma_closed_concat(kinds_of(head), kinds_of(tail));
    }
}

/// Round trip within the limit: the text written for a document that was
/// read from a text is read as the same document. This holds of every text.
pub proof fn lemma_round_trip_read(text: Seq<char>)
    requires
        read_text(text) is Ok,
    ensures
        read_text(render_text(read_text(text)->Ok_0)) == read_text(text),
{
    let entries = read_text(text)->Ok_0;
    let kinds = kinds_of(lines_of(text));
    let start = seq![root_scope()];
    lemma_read_is_parse(text);
    lemma_round_trip(text);
    lemma_parsed_entries(text);
    // the document has as many structs as lines closed one
    lemma_overflow_none(kinds);
    lemma_run_kinds(start, lines_of(text));
    lemma_run_counts(start, kinds);
    assert(start.drop_last() =~= Seq::<Scope>::empty());
    assert(scopes_structs(start.drop_last()) == 0);
    assert(start.last().entries =~= Seq::<Entry>::empty());
    assert(structs_in(Seq::<Entry>::empty(), 0) == 0);
    assert(scopes_structs(start) == 0);
    let end = run_kinds(start, kinds)->Ok_0;
    assert(end.drop_last() =~= Seq::<Scope>::empty());
    assert(scopes_structs(end.drop_last()) == 0);
    assert(end.last() == end[0]);
    assert(scopes_structs(end) == structs_in(entries, entries.len()));
    // and so many lines close one in the text that is written
    let written = render_text(entries);
    lemma_entries_close(entries, 0, entries.len());
    lemma_overflow_none(kinds_of(lines_of(written)));
    lemma_read_is_parse(written);
}

} // verus!
