//! The INI format: named sections of `key = value` lines, in the order in
//! which they were first seen.

use crate::text::{
    char_is_whitespace, chars_of, find_char, first_index_of, has_line_break, has_line_break_from,
    is_whitespace, lines_of, push_str, skip_blanks, skip_blanks_from, split_lines, string_of,
    string_of_range, trim, trim_range, views,
};
use crate::json::{
    json_as_str, json_from_members, json_get, json_key_order, json_keys, json_members, json_model,
    json_string, lists_keys, members_insert, members_new, object_of, texts, Json,
};
use crate::merge::{merge_json_values, merged_json, MergeError};
use indexmap::IndexMap;
use serde_json::Value;
use vstd::prelude::*;

verus! {

/// `indexmap::IndexMap`: a map that keeps its entries in insertion order.
#[verifier::external_type_specification]
#[verifier::external_body]
#[verifier::reject_recursive_types(K)]
#[verifier::reject_recursive_types(V)]
#[verifier::reject_recursive_types(S)]
pub struct ExIndexMap<K, V, S>(IndexMap<K, V, S>);

/// The values of one section, by key.
pub struct UnrealIniSection {
    pub values: IndexMap<String, String>,
}

/// An INI document: its sections, by name.
pub struct UnrealIni {
    sections: IndexMap<String, UnrealIniSection>,
}

/// Keys with their values, in order.
pub type Entries = Seq<(Seq<char>, Seq<char>)>;

/// Section names with their entries, in order.
pub type Sections = Seq<(Seq<char>, Entries)>;

/// The entries that a map of strings holds, in its order.
pub uninterp spec fn map_entries(map: IndexMap<String, String>) -> Seq<(Seq<char>, Seq<char>)>;

/// The sections that a map of sections holds, in its order.
pub uninterp spec fn map_sections(map: IndexMap<String, UnrealIniSection>) -> Seq<
    (Seq<char>, Seq<(Seq<char>, Seq<char>)>),
>;

/// The position of the first pair with this key, or the length.
pub open spec fn key_index<V>(pairs: Seq<(Seq<char>, V)>, key: Seq<char>) -> int
    decreases pairs.len(),
{
    if pairs.len() == 0 {
        0
    } else if pairs[0].0 == key {
        0
    } else {
        1 + key_index(pairs.skip(1), key)
    }
}

/// The pairs after `key` was given `value`: a key that is there keeps its
/// place and gets the value, a new key comes last.
pub open spec fn upsert<V>(pairs: Seq<(Seq<char>, V)>, key: Seq<char>, value: V) -> Seq<
    (Seq<char>, V),
> {
    let i = key_index(pairs, key);
    if 0 <= i < pairs.len() {
        pairs.update(i, (key, value))
    } else {
        pairs.push((key, value))
    }
}

/// `IndexMap::new`: a map without entries.
#[verifier::external_body]
fn entries_new() -> (map: IndexMap<String, String>)
    ensures
        map_entries(map) == Seq::<(Seq<char>, Seq<char>)>::empty(),
{
    IndexMap::new()
}

/// `IndexMap::insert`: a key that is there keeps its place and gets the new
/// value; a new key comes last.
#[verifier::external_body]
fn entries_insert(map: &mut IndexMap<String, String>, key: String, value: String)
    ensures
        map_entries(*final(map)) == upsert(map_entries(*old(map)), key@, value@),
{
    map.insert(key, value);
}

/// `IndexMap::len`: the number of entries.
#[verifier::external_body]
fn entries_len(map: &IndexMap<String, String>) -> (len: usize)
    ensures
        len == map_entries(*map).len(),
{
    map.len()
}

/// `IndexMap::get_index`: the entry at a position in the order.
#[verifier::external_body]
fn entries_get(map: &IndexMap<String, String>, index: usize) -> (entry: (&String, &String))
    requires
        index < map_entries(*map).len(),
    ensures
        entry.0@ == map_entries(*map)[index as int].0,
        entry.1@ == map_entries(*map)[index as int].1,
{
    map.get_index(index).unwrap()
}

/// `IndexMap::new`: a map without sections.
#[verifier::external_body]
fn sections_new() -> (map: IndexMap<String, UnrealIniSection>)
    ensures
        map_sections(map) == Seq::<(Seq<char>, Seq<(Seq<char>, Seq<char>)>)>::empty(),
{
    IndexMap::new()
}

/// `IndexMap::insert`: a name that is there keeps its place and gets the
/// new section; a new name comes last.
#[verifier::external_body]
fn sections_insert(
    map: &mut IndexMap<String, UnrealIniSection>,
    name: String,
    section: UnrealIniSection,
)
    ensures
        map_sections(*final(map)) == upsert(
            map_sections(*old(map)),
            name@,
            map_entries(section.values),
        ),
{
    map.insert(name, section);
}

/// `IndexMap::get`: the section of a name, if there is one.
#[verifier::external_body]
fn sections_find<'a>(map: &'a IndexMap<String, UnrealIniSection>, name: &str) -> (found: Option<
    &'a UnrealIniSection,
>)
    ensures
        match found {
            Some(section) => key_index(map_sections(*map), name@) < map_sections(*map).len()
                && map_entries(section.values) == map_sections(*map)[key_index(
                map_sections(*map),
                name@,
            )].1,
            None => key_index(map_sections(*map), name@) >= map_sections(*map).len(),
        },
{
    map.get(name)
}

/// `IndexMap::clone`: a map with the same entries in the same order.
#[verifier::external_body]
fn entries_clone(map: &IndexMap<String, String>) -> (copy: IndexMap<String, String>)
    ensures
        map_entries(copy) == map_entries(*map),
{
    map.clone()
}

/// `IndexMap::len`: the number of sections.
#[verifier::external_body]
fn sections_len(map: &IndexMap<String, UnrealIniSection>) -> (len: usize)
    ensures
        len == map_sections(*map).len(),
{
    map.len()
}

/// `IndexMap::get_index`: the section at a position in the order.
#[verifier::external_body]
fn sections_get(map: &IndexMap<String, UnrealIniSection>, index: usize) -> (entry: (
    &String,
    &UnrealIniSection,
))
    requires
        index < map_sections(*map).len(),
    ensures
        entry.0@ == map_sections(*map)[index as int].0,
        map_entries(entry.1.values) == map_sections(*map)[index as int].1,
{
    map.get_index(index).unwrap()
}

/// What a single line is.
pub enum IniLine {
    /// Starts with `;`, or is nothing the format knows: passed over.
    Skip,
    /// `[name]`: opens the section of that name.
    Header { name: Seq<char> },
    /// `key = value`.
    Pair { key: Seq<char>, value: Seq<char> },
}

/// The position of the first whitespace or `=` in `s`, or `s.len()`.
pub open spec fn key_end(s: Seq<char>) -> nat
    decreases s.len(),
{
    if s.len() == 0 || is_whitespace(s[0]) || s[0] == '=' {
        0
    } else {
        1 + key_end(s.skip(1))
    }
}

/// What the trimmed line `t` is. A key runs up to the first whitespace or
/// `=`; blanks may stand on either side of the `=`; a value holds no carriage
/// return.
pub open spec fn classify_trimmed(t: Seq<char>) -> IniLine {
    if t.len() > 0 && t[0] == ';' {
        IniLine::Skip
    } else if t.len() > 0 && t[0] == '[' && first_index_of(t.skip(1), ']') < t.len() - 1 {
        IniLine::Header { name: t.skip(1).take(first_index_of(t.skip(1), ']') as int) }
    } else {
        let k = key_end(t) as int;
        let rest = skip_blanks(t.skip(k));
        if rest.len() > 0 && rest[0] == '=' && !has_line_break(skip_blanks(rest.skip(1))) {
            IniLine::Pair { key: t.take(k), value: skip_blanks(rest.skip(1)) }
        } else {
            IniLine::Skip
        }
    }
}

/// What a line is, without its surrounding whitespace.
pub open spec fn classify_ini(line: Seq<char>) -> IniLine {
    classify_trimmed(trim(line))
}

/// The entries of the first section of this name, or none.
pub open spec fn lookup(sections: Sections, name: Seq<char>) -> Entries {
    let i = key_index(sections, name);
    if 0 <= i < sections.len() {
        sections[i].1
    } else {
        Seq::empty()
    }
}

/// What has been read: the sections, and the name of the section that pairs
/// go to. Before any header that is the unnamed section, which comes into
/// being with its first pair.
pub struct IniState {
    pub sections: Sections,
    pub current: Seq<char>,
}

/// The sections with the one of this name open: a section that is there
/// stays as it is, a new one comes last and is empty.
pub open spec fn opened(sections: Sections, name: Seq<char>) -> Sections {
    if 0 <= key_index(sections, name) < sections.len() {
        sections
    } else {
        sections.push((name, Seq::empty()))
    }
}

/// A header opens its section and makes it current. A pair goes to the
/// current section.
pub open spec fn ini_step(state: IniState, line: IniLine) -> IniState {
    match line {
        IniLine::Skip => state,
        IniLine::Header { name } => IniState {
            sections: opened(state.sections, name),
            current: name,
        },
        IniLine::Pair { key, value } => IniState {
            sections: upsert(
                state.sections,
                state.current,
                upsert(lookup(state.sections, state.current), key, value),
            ),
            current: state.current,
        },
    }
}

/// What has been read after all of the lines.
pub open spec fn ini_run(lines: Seq<Seq<char>>) -> IniState
    decreases lines.len(),
{
    if lines.len() == 0 {
        IniState { sections: Seq::empty(), current: Seq::empty() }
    } else {
        ini_step(ini_run(lines.drop_last()), classify_ini(lines.last()))
    }
}

/// The sections that a text holds.
pub open spec fn parse_ini(text: Seq<char>) -> Sections {
    ini_run(lines_of(text)).sections
}

/// The first `count` entries, one `key = value` line each.
pub open spec fn render_pairs(entries: Entries, count: nat) -> Seq<char>
    decreases count,
{
    if count == 0 || count > entries.len() {
        Seq::empty()
    } else {
        render_pairs(entries, (count - 1) as nat) + entries[count - 1].0 + seq![' ', '=', ' ']
            + entries[count - 1].1 + seq!['\n']
    }
}

/// A section: its name in brackets, its entries, and an empty line.
pub open spec fn render_section(name: Seq<char>, entries: Entries) -> Seq<char> {
    seq!['['] + name + seq![']', '\n'] + render_pairs(entries, entries.len()) + seq!['\n']
}

/// The first `count` sections, one after the other.
pub open spec fn render_ini(sections: Sections, count: nat) -> Seq<char>
    decreases count,
{
    if count == 0 || count > sections.len() {
        Seq::empty()
    } else {
        render_ini(sections, (count - 1) as nat) + render_section(
            sections[count - 1].0,
            sections[count - 1].1,
        )
    }
}

/// Where the first pair with a key stands, the key stands.
pub proof fn lemma_key_index<V>(pairs: Seq<(Seq<char>, V)>, key: Seq<char>)
    ensures
        0 <= key_index(pairs, key) <= pairs.len(),
        key_index(pairs, key) < pairs.len() ==> pairs[key_index(pairs, key)].0 == key,
    decreases pairs.len(),
{
    if pairs.len() > 0 && pairs[0].0 != key {
        lemma_key_index(pairs.skip(1), key);
    }
}

/// Giving a key a value twice leaves the second value, at the place of the
/// first.
pub proof fn lemma_upsert_twice<V>(pairs: Seq<(Seq<char>, V)>, key: Seq<char>, a: V, b: V)
    ensures
        upsert(upsert(pairs, key, a), key, b) == upsert(pairs, key, b),
        key_index(upsert(pairs, key, a), key) == key_index(pairs, key),
        0 <= key_index(pairs, key) <= pairs.len(),
        upsert(pairs, key, a)[key_index(pairs, key)] == (key, a),
    decreases pairs.len(),
{
    if pairs.len() == 0 {
        let one = pairs.push((key, a));
        assert(key_index(one, key) == 0);
        assert(one.update(0, (key, b)) =~= pairs.push((key, b)));
    } else if pairs[0].0 == key {
        assert(pairs.update(0, (key, a)).update(0, (key, b)) =~= pairs.update(0, (key, b)));
    } else {
        let tail = pairs.skip(1);
        lemma_upsert_twice(tail, key, a, b);
        let i = key_index(tail, key);
        let up = upsert(pairs, key, a);
        if i < tail.len() {
            assert(up =~= pairs.update(i + 1, (key, a)));
            assert(up.skip(1) =~= tail.update(i, (key, a)));
            assert(up.update(i + 1, (key, b)) =~= pairs.update(i + 1, (key, b)));
        } else {
            assert(up == pairs.push((key, a)));
            assert(up.skip(1) =~= tail.push((key, a)));
            assert(up.update(i + 1, (key, b)) =~= pairs.push((key, b)));
        }
        assert(up[0] == pairs[0]);
        assert(key_index(up, key) == 1 + key_index(up.skip(1), key));
    }
}

impl View for UnrealIni {
    type V = Sections;

    closed spec fn view(&self) -> Sections {
        map_sections(self.sections)
    }
}

/// Where the key of a trimmed line ends.
fn find_key_end(line: &Vec<char>, lo: usize, hi: usize) -> (k: usize)
    requires
        lo <= hi <= line.len(),
    ensures
        lo <= k <= hi,
        k - lo == key_end(line@.subrange(lo as int, hi as int)),
{
    let mut k: usize = lo;
    while k < hi && !char_is_whitespace(line[k]) && line[k] != '='
        invariant
            lo <= k <= hi <= line.len(),
            key_end(line@.subrange(lo as int, hi as int)) == (k - lo) + key_end(
                line@.subrange(k as int, hi as int),
            ),
        decreases hi - k,
    {
        assert(line@.subrange(k as int, hi as int).skip(1) =~= line@.subrange(k + 1, hi as int));
        k += 1;
    }
    k
}

/// A line as the parser reads it.
pub enum IniToken {
    Skip,
    Header { name: String },
    Pair { key: String, value: String },
}

impl View for IniToken {
    type V = IniLine;

    open spec fn view(&self) -> IniLine {
        match self {
            IniToken::Skip => IniLine::Skip,
            IniToken::Header { name } => IniLine::Header { name: name@ },
            IniToken::Pair { key, value } => IniLine::Pair { key: key@, value: value@ },
        }
    }
}

/// Reads one line.
pub fn classify_ini_line(line: &Vec<char>) -> (token: IniToken)
    ensures
        token@ == classify_ini(line@),
{
    let len = line.len();
    assert(line@.subrange(0, len as int) =~= line@);
    let (lo, hi) = trim_range(line, 0, len);
    let ghost t = line@.subrange(lo as int, hi as int);
    // the trimmed line as a vector of its own keeps the index arithmetic plain
    let mut text: Vec<char> = Vec::new();
    let mut j: usize = lo;
    while j < hi
        invariant
            lo <= j <= hi <= line.len(),
            text@ == line@.subrange(lo as int, j as int),
        decreases hi - j,
    {
        text.push(line[j]);
        assert(line@.subrange(lo as int, j as int).push(line@[j as int]) =~= line@.subrange(
            lo as int,
            j + 1,
        ));
        j += 1;
    }
    assert(text@ == t);
    let n = text.len();
    if n > 0 && text[0] == ';' {
        return IniToken::Skip;
    }
    if n > 0 && text[0] == '[' {
        let close = find_char(&text, 1, ']');
        if close < n {
            let name = string_of_range(&text, 1, close);
            assert(t.skip(1).take(close - 1) =~= t.subrange(1, close as int));
            return IniToken::Header { name };
        }
    }
    let k = find_key_end(&text, 0, n);
    assert(text@.subrange(0, n as int) =~= text@);
    let eq = skip_blanks_from(&text, k);
    if eq < n && text[eq] == '=' {
        let from = skip_blanks_from(&text, eq + 1);
        proof {
            let rest = skip_blanks(t.skip(k as int));
            assert(rest == t.skip(eq as int));
            assert(rest[0] == t[eq as int]);
            assert(rest.skip(1) =~= t.skip(eq + 1));
        }
        if !has_line_break_from(&text, from) {
            let key = string_of_range(&text, 0, k);
            let value = string_of_range(&text, from, n);
            assert(t.subrange(from as int, n as int) =~= t.skip(from as int));
            assert(t.subrange(0, k as int) =~= t.take(k as int));
            return IniToken::Pair { key, value };
        }
        return IniToken::Skip;
    }
    proof {
        let rest = skip_blanks(t.skip(k as int));
        assert(rest == t.skip(eq as int));
        if rest.len() > 0 {
            assert(rest[0] == t[eq as int]);
        }
    }
    IniToken::Skip
}

impl UnrealIni {
    /// Reads a document from its text. A pair that stands before any header
    /// goes to a section with the empty name.
    pub fn from_str(s: &str) -> (ini: UnrealIni)
        ensures
            ini@ == parse_ini(s@),
    {
        let text = chars_of(s);
        let lines = split_lines(&text);
        let mut sections = sections_new();
        let mut values = entries_new();
        let mut current = String::new();
        let mut open = false;
        let mut i: usize = 0;
        assert(views(lines@).take(0) =~= Seq::<Seq<char>>::empty());
        while i < lines.len()
            invariant
                i <= lines.len(),
                ini_run(views(lines@).take(i as int)).current == current@,
                !open ==> map_entries(values).len() == 0 && ini_run(
                    views(lines@).take(i as int),
                ).sections == map_sections(sections),
                open ==> ini_run(views(lines@).take(i as int)).sections == upsert(
                    map_sections(sections),
                    current@,
                    map_entries(values),
                ),
                !open ==> lookup(map_sections(sections), current@).len() == 0,
            decreases lines.len() - i,
        {
            let ghost before = ini_run(views(lines@).take(i as int));
            let ghost flushed = map_sections(sections);
            let ghost held = map_entries(values);
            proof {
                assert(views(lines@).take(i + 1).drop_last() =~= views(lines@).take(i as int));
                assert(views(lines@).take(i + 1).last() == lines@[i as int]@);
            }
            match classify_ini_line(&lines[i]) {
                IniToken::Skip => {},
                IniToken::Header { name } => {
                    if open {
                        sections_insert(&mut sections, current, UnrealIniSection { values });
                    }
                    proof {
                        lemma_key_index(map_sections(sections), name@);
                    }
                    values = match sections_find(&sections, name.as_str()) {
                        Some(section) => entries_clone(&section.values),
                        None => entries_new(),
                    };
                    proof {
                        let known = map_sections(sections);
                        let at = key_index(known, name@);
                        if at < known.len() {
                            assert(known.update(at, (name@, known[at].1)) =~= known);
                        }
                    }
                    current = name;
                    open = true;
                },
                IniToken::Pair { key, value } => {
                    proof {
                        if open {
                            lemma_upsert_twice(
                                flushed,
                                current@,
                                held,
                                upsert(held, key@, value@),
                            );
                            assert(lookup(before.sections, current@) == held);
                        } else {
                            assert(held =~= Seq::<(Seq<char>, Seq<char>)>::empty());
                            assert(lookup(flushed, current@) =~= held);
                        }
                    }
                    entries_insert(&mut values, key, value);
                    open = true;
                },
            }
            i += 1;
        }
        assert(views(lines@).take(lines.len() as int) =~= views(lines@));
        if open {
            sections_insert(&mut sections, current, UnrealIniSection { values });
        }
        UnrealIni { sections }
    }

    /// The text of the document: each section's name in brackets, its
    /// `key = value` lines, and an empty line.
    pub fn to_string(&self) -> (text: String)
        ensures
            text@ == render_ini(self@, self@.len()),
    {
        let mut out: Vec<char> = Vec::new();
        let count = sections_len(&self.sections);
        let mut i: usize = 0;
        while i < count
            invariant
                i <= count == self@.len(),
                out@ == render_ini(self@, i as nat),
            decreases count - i,
        {
            let (name, section) = sections_get(&self.sections, i);
            let ghost entries = map_entries(section.values);
            let ghost start = out@;
            out.push('[');
            push_str(&mut out, name.as_str());
            out.push(']');
            out.push('\n');
            let ghost head = out@;
            let pairs = entries_len(&section.values);
            let mut j: usize = 0;
            while j < pairs
                invariant
                    j <= pairs == entries.len(),
                    entries == map_entries(section.values),
                    out@ == head + render_pairs(entries, j as nat),
                decreases pairs - j,
            {
                let (key, value) = entries_get(&section.values, j);
                let ghost sofar = out@;
                push_str(&mut out, key.as_str());
                out.push(' ');
                out.push('=');
                out.push(' ');
                push_str(&mut out, value.as_str());
                out.push('\n');
                assert(out@ =~= head + render_pairs(entries, j as nat + 1));
                j += 1;
            }
            out.push('\n');
            assert(out@ =~= start + render_section(name@, entries));
            i += 1;
        }
        string_of(&out)
    }
}

/// The JSON object of the entries of a section: a member for each key.
pub open spec fn lower_pairs(entries: Entries) -> Json {
    Json::Object(
        object_of(
            Seq::new(entries.len(), |i: int| entries[i].0),
            Seq::new(entries.len(), |i: int| Json::Text(entries[i].1)),
            entries.len(),
        ),
    )
}

/// The JSON value of a section: an object with the member `values`.
pub open spec fn lower_section(entries: Entries) -> Json {
    Json::Object(Map::empty().insert("values"@, lower_pairs(entries)))
}

/// The JSON value of a document: an object with the member `sections`, which
/// has a member for each section.
pub open spec fn lower_ini(sections: Sections) -> Json {
    Json::Object(
        Map::empty().insert(
            "sections"@,
            Json::Object(
                object_of(
                    Seq::new(sections.len(), |i: int| sections[i].0),
                    Seq::new(sections.len(), |i: int| lower_section(sections[i].1)),
                    sections.len(),
                ),
            ),
        ),
    )
}

/// The member of an object under a key, if it is an object with finitely
/// many keys.
pub open spec fn object_at(value: Json, key: Seq<char>) -> Option<Json> {
    if value is Object && value->Object_0.contains_key(key) {
        Some(value->Object_0[key])
    } else {
        None
    }
}

/// The entries that the members under the first `count` keys stand for:
/// each must be a text.
pub open spec fn raise_pairs(object: Json, keys: Seq<Seq<char>>, count: nat) -> Result<
    Entries,
    MergeError,
>
    decreases count,
{
    if count == 0 || count > keys.len() {
        Ok(Seq::empty())
    } else {
        match raise_pairs(object, keys, (count - 1) as nat) {
            Ok(head) => match object_at(object, keys[count - 1]) {
                Some(Json::Text(text)) => Ok(upsert(head, keys[count - 1], text)),
                _ => Err(MergeError::Shape),
            },
            Err(e) => Err(e),
        }
    }
}

/// The entries that a JSON value stands for as a section: those of its
/// member `values`, in the order of its keys.
pub open spec fn raise_section(value: Json) -> Result<Entries, MergeError> {
    match object_at(value, "values"@) {
        Some(pairs) => {
            if pairs is Object {
                raise_pairs(pairs, json_key_order(pairs), json_key_order(pairs).len())
            } else {
                Err(MergeError::Shape)
            }
        },
        None => Err(MergeError::Shape),
    }
}

/// The sections that the members under the first `count` keys stand for.
pub open spec fn raise_sections(object: Json, keys: Seq<Seq<char>>, count: nat) -> Result<
    Sections,
    MergeError,
>
    decreases count,
{
    if count == 0 || count > keys.len() {
        Ok(Seq::empty())
    } else {
        match raise_sections(object, keys, (count - 1) as nat) {
            Ok(head) => match object_at(object, keys[count - 1]) {
                Some(member) => match raise_section(member) {
                    Ok(entries) => Ok(upsert(head, keys[count - 1], entries)),
                    Err(e) => Err(e),
                },
                None => Err(MergeError::Shape),
            },
            Err(e) => Err(e),
        }
    }
}

/// The sections of the document that a JSON value stands for.
pub open spec fn raise_ini(value: Json) -> Result<Sections, MergeError> {
    match object_at(value, "sections"@) {
        Some(sections) => {
            if sections is Object {
                raise_sections(
                    sections,
                    json_key_order(sections),
                    json_key_order(sections).len(),
                )
            } else {
                Err(MergeError::Shape)
            }
        },
        None => Err(MergeError::Shape),
    }
}

/// The keys of the pairs, in order.
pub open spec fn key_names<V>(pairs: Seq<(Seq<char>, V)>) -> Seq<Seq<char>> {
    Seq::new(pairs.len(), |i: int| pairs[i].0)
}

/// The entries have the keys of the member `values` of a JSON value, each
/// once and in ascending order.
pub open spec fn section_lists(value: Json, entries: Entries) -> bool {
    object_at(value, "values"@) is Some && object_at(value, "values"@)->0 is Object && lists_keys(
        key_names(entries),
        object_at(value, "values"@)->0->Object_0,
    )
}

/// The sections have the keys of the member `sections` of a JSON value, each
/// once and in ascending order, and so has each section the keys of its
/// member: nothing of the JSON value is lost, and nothing is added.
pub open spec fn ini_lists(value: Json, sections: Sections) -> bool {
    &&& object_at(value, "sections"@) is Some
    &&& object_at(value, "sections"@)->0 is Object
    &&& lists_keys(key_names(sections), object_at(value, "sections"@)->0->Object_0)
    &&& forall|i: int|
        0 <= i < sections.len() ==> section_lists(
            object_at(value, "sections"@)->0->Object_0[(#[trigger] sections[i]).0],
            sections[i].1,
        )
}

/// A key that no pair has comes last.
pub proof fn lemma_upsert_new<V>(pairs: Seq<(Seq<char>, V)>, key: Seq<char>, value: V)
    requires
        forall|i: int| 0 <= i < pairs.len() ==> (#[trigger] pairs[i]).0 != key,
    ensures
        upsert(pairs, key, value) == pairs.push((key, value)),
        key_index(pairs, key) == pairs.len(),
    decreases pairs.len(),
{
    if pairs.len() > 0 {
        let tail = pairs.skip(1);
        assert forall|i: int| 0 <= i < tail.len() implies (#[trigger] tail[i]).0 != key by {
            assert(tail[i] == pairs[i + 1]);
        }
        lemma_upsert_new(tail, key, value);
        assert(pairs[0].0 != key);
    }
}

/// The merge of three documents: their JSON values are merged, and the
/// result is read as a document.
pub open spec fn merged_ini(base: Sections, ours: Sections, theirs: Sections) -> Result<
    Sections,
    MergeError,
> {
    match merged_json(lower_ini(base), lower_ini(ours), lower_ini(theirs)) {
        Ok(merged) => raise_ini(merged),
        Err(e) => Err(e),
    }
}

/// Once the first members fail to stand for entries, so do all.
pub proof fn lemma_raise_pairs_fails(object: Json, keys: Seq<Seq<char>>, upto: nat, count: nat)
    requires
        upto <= count <= keys.len(),
        raise_pairs(object, keys, upto) is Err,
    ensures
        raise_pairs(object, keys, count) == raise_pairs(object, keys, upto),
    decreases count - upto,
{
    if upto < count {
        lemma_raise_pairs_fails(object, keys, upto, (count - 1) as nat);
    }
}

/// Once the first members fail to stand for sections, so do all.
pub proof fn lemma_raise_sections_fails(object: Json, keys: Seq<Seq<char>>, upto: nat, count: nat)
    requires
        upto <= count <= keys.len(),
        raise_sections(object, keys, upto) is Err,
    ensures
        raise_sections(object, keys, count) == raise_sections(object, keys, upto),
    decreases count - upto,
{
    if upto < count {
        lemma_raise_sections_fails(object, keys, upto, (count - 1) as nat);
    }
}

/// The JSON object with the single member `key`.
fn json_object1(key: &str, member: Value) -> (value: Value)
    ensures
        json_model(value) == Json::Object(Map::empty().insert(key@, json_model(member))),
{
    let mut members = members_new();
    assert(json_members(members) =~= Map::empty());
    members_insert(&mut members, key.to_owned(), member);
    json_from_members(members)
}

/// The JSON value of the entries of a section.
fn lower_entries_map(map: &IndexMap<String, String>) -> (value: Value)
    ensures
        json_model(value) == lower_section(map_entries(*map)),
{
    let ghost entries = map_entries(*map);
    let ghost keys = Seq::new(entries.len(), |i: int| entries[i].0);
    let ghost values = Seq::new(entries.len(), |i: int| Json::Text(entries[i].1));
    let count = entries_len(map);
    let mut members = members_new();
    assert(json_members(members) =~= object_of(keys, values, 0));
    let mut i: usize = 0;
    while i < count
        invariant
            i <= count == entries.len(),
            entries == map_entries(*map),
            keys == Seq::new(entries.len(), |i: int| entries[i].0),
            values == Seq::new(entries.len(), |i: int| Json::Text(entries[i].1)),
            json_members(members) == object_of(keys, values, i as nat),
        decreases count - i,
    {
        let (key, text) = entries_get(map, i);
        members_insert(&mut members, key.clone(), json_string(text.as_str()));
        i += 1;
    }
    json_object1("values", json_from_members(members))
}

/// The entries that the members of a JSON object stand for.
fn raise_entries_map(pairs: &Value) -> (result: Result<IndexMap<String, String>, MergeError>)
    requires
        json_model(*pairs) is Object,
    ensures
        match result {
            Ok(map) => raise_pairs(
                json_model(*pairs),
                json_key_order(json_model(*pairs)),
                json_key_order(json_model(*pairs)).len(),
            ) == Ok::<Entries, MergeError>(map_entries(map)) && lists_keys(
                key_names(map_entries(map)),
                json_model(*pairs)->Object_0,
            ),
            Err(e) => raise_pairs(
                json_model(*pairs),
                json_key_order(json_model(*pairs)),
                json_key_order(json_model(*pairs)).len(),
            ) == Err::<Entries, MergeError>(e),
        },
{
    let ghost object = json_model(*pairs);
    let ghost order = json_key_order(object);
    let keys = match json_keys(pairs) {
        Some(keys) => keys,
        None => {
            return Err(MergeError::Shape);
        },
    };
    let mut map = entries_new();
    let mut i: usize = 0;
    assert(key_names(map_entries(map)) =~= order.take(0));
    while i < keys.len()
        invariant
            i <= keys.len(),
            object == json_model(*pairs),
            order == json_key_order(object),
            texts(keys@) == order,
            lists_keys(order, object->Object_0),
            raise_pairs(object, order, i as nat) == Ok::<Entries, MergeError>(map_entries(map)),
            key_names(map_entries(map)) == order.take(i as int),
        decreases keys.len() - i,
    {
        let ghost held = map_entries(map);
        assert(order[i as int] == keys@[i as int]@);
        proof {
            assert(order.len() == keys@.len());
            assert(key_names(held).len() == held.len());
            assert(order.take(i as int).len() == i);
            assert forall|j: int| 0 <= j < held.len() implies (#[trigger] held[j]).0
                != order[i as int] by {
                assert(key_names(held)[j] == order.take(i as int)[j]);
                assert(order[j] != order[i as int]);
            }
        }
        let text = match json_get(pairs, keys[i].as_str()) {
            Some(member) => match json_as_str(member) {
                Some(text) => text,
                None => {
                    proof {
                        lemma_raise_pairs_fails(object, order, (i + 1) as nat, order.len());
                    }
                    return Err(MergeError::Shape);
                },
            },
            None => {
                proof {
                    lemma_raise_pairs_fails(object, order, (i + 1) as nat, order.len());
                }
                return Err(MergeError::Shape);
            },
        };
        entries_insert(&mut map, keys[i].clone(), text.to_owned());
        proof {
            lemma_upsert_new(held, order[i as int], text@);
            assert(key_names(map_entries(map)) =~= order.take(i + 1));
        }
        i += 1;
    }
    assert(order.take(keys.len() as int) =~= order);
    Ok(map)
}

impl UnrealIni {
    /// The document as a JSON value.
    pub fn to_json(&self) -> (value: Value)
        ensures
            json_model(value) == lower_ini(self@),
    {
        let ghost sections = self@;
        let ghost keys = Seq::new(sections.len(), |i: int| sections[i].0);
        let ghost values = Seq::new(sections.len(), |i: int| lower_section(sections[i].1));
        let count = sections_len(&self.sections);
        let mut members = members_new();
        assert(json_members(members) =~= object_of(keys, values, 0));
        let mut i: usize = 0;
        while i < count
            invariant
                i <= count == sections.len(),
                sections == self@,
                keys == Seq::new(sections.len(), |i: int| sections[i].0),
                values == Seq::new(sections.len(), |i: int| lower_section(sections[i].1)),
                json_members(members) == object_of(keys, values, i as nat),
            decreases count - i,
        {
            let (name, section) = sections_get(&self.sections, i);
            members_insert(&mut members, name.clone(), lower_entries_map(&section.values));
            i += 1;
        }
        json_object1("sections", json_from_members(members))
    }

    /// Reads a document from a JSON value: the sections and their entries
    /// come in the order in which the JSON objects are walked.
    pub fn from_json(value: &Value) -> (result: Result<UnrealIni, MergeError>)
        ensures
            match result {
                Ok(ini) => raise_ini(json_model(*value)) == Ok::<Sections, MergeError>(ini@)
                    && ini_lists(json_model(*value), ini@),
                Err(e) => raise_ini(json_model(*value)) == Err::<Sections, MergeError>(e),
            },
    {
        let all = match json_get(value, "sections") {
            Some(member) => member,
            None => {
                return Err(MergeError::Shape);
            },
        };
        let ghost object = json_model(*all);
        let ghost order = json_key_order(object);
        let keys = match json_keys(all) {
            Some(keys) => keys,
            None => {
                return Err(MergeError::Shape);
            },
        };
        let mut sections = sections_new();
        let mut i: usize = 0;
        assert(key_names(map_sections(sections)) =~= order.take(0));
        while i < keys.len()
            invariant
                i <= keys.len(),
                object == json_model(*all),
                object is Object,
                object_at(json_model(*value), "sections"@) == Some(object),
                order == json_key_order(object),
                texts(keys@) == order,
                lists_keys(order, object->Object_0),
                key_names(map_sections(sections)) == order.take(i as int),
                forall|j: int|
                    0 <= j < map_sections(sections).len() ==> section_lists(
                        object->Object_0[(#[trigger] map_sections(sections)[j]).0],
                        map_sections(sections)[j].1,
                    ),
                raise_ini(json_model(*value)) == raise_sections(object, order, order.len()),
                raise_sections(object, order, i as nat) == Ok::<Sections, MergeError>(
                    map_sections(sections),
                ),
            decreases keys.len() - i,
        {
            let ghost held = map_sections(sections);
            assert(order[i as int] == keys@[i as int]@);
            proof {
                assert(order.len() == keys@.len());
                assert(key_names(held).len() == held.len());
                assert(order.take(i as int).len() == i);
                assert forall|j: int| 0 <= j < held.len() implies (#[trigger] held[j]).0
                    != order[i as int] by {
                    assert(key_names(held)[j] == order.take(i as int)[j]);
                    assert(order[j] != order[i as int]);
                }
            }
            let member = match json_get(all, keys[i].as_str()) {
                Some(member) => member,
                None => {
                    proof {
                        lemma_raise_sections_fails(object, order, (i + 1) as nat, order.len());
                    }
                    return Err(MergeError::Shape);
                },
            };
            let pairs = match json_get(member, "values") {
                Some(pairs) => pairs,
                None => {
                    proof {
                        lemma_raise_sections_fails(object, order, (i + 1) as nat, order.len());
                    }
                    return Err(MergeError::Shape);
                },
            };
            let is_object = json_keys(pairs).is_some();
            if !is_object {
                proof {
                    lemma_raise_sections_fails(object, order, (i + 1) as nat, order.len());
                }
                return Err(MergeError::Shape);
            }
            let values = match raise_entries_map(pairs) {
                Ok(values) => values,
                Err(e) => {
                    proof {
                        lemma_raise_sections_fails(object, order, (i + 1) as nat, order.len());
                    }
                    return Err(e);
                },
            };
            let ghost entries = map_entries(values);
            sections_insert(&mut sections, keys[i].clone(), UnrealIniSection { values });
            proof {
                lemma_upsert_new(held, order[i as int], entries);
                let now = map_sections(sections);
                assert(key_names(now) =~= order.take(i + 1));
                assert forall|j: int| 0 <= j < now.len() implies section_lists(
                    object->Object_0[(#[trigger] now[j]).0],
                    now[j].1,
                ) by {
                    if j < held.len() {
                        assert(now[j] == held[j]);
                    }
                }
            }
            i += 1;
        }
        assert(order.take(keys.len() as int) =~= order);
        Ok(UnrealIni { sections })
    }
}

/// Merges what `our` and `their` documents changed against `base`: on a
/// collision theirs wins.
pub fn merge_unreal_inis(base: &UnrealIni, our: &UnrealIni, their: &UnrealIni) -> (result: Result<
    UnrealIni,
    MergeError,
>)
    ensures
        match result {
            Ok(ini) => merged_ini(base@, our@, their@) == Ok::<Sections, MergeError>(ini@)
                && ini_lists(
                merged_json(lower_ini(base@), lower_ini(our@), lower_ini(their@))->Ok_0,
                ini@,
            ),
            Err(e) => merged_ini(base@, our@, their@) == Err::<Sections, MergeError>(e),
        },
{
    let base_json = base.to_json();
    let our_json = our.to_json();
    let their_json = their.to_json();
    match merge_json_values(base_json, &our_json, &their_json) {
        Ok(merged) => UnrealIni::from_json(&merged),
        Err(e) => Err(e),
    }
}

} // verus!
