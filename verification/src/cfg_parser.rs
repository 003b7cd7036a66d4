//! The struct configuration format as three regular expressions read it:
//! every line belongs to a struct, and what is still open at the end of the
//! text is closed there.

use crate::cfg_syntax::{
    advance, lemma_overflow_first, overflow_line, parse_kinds, root_scope, run_kinds, Entry, Line,
    ParseError, Scope, Token,
};
use crate::json::texts;
use crate::merge::MergeError;
use crate::stalker2_cfg::{
    lemma_run_fails, merged_cfg, token_views, Stalker2Cfg, Stalker2CfgStruct, Stalker2CfgValue,
};
use crate::text::{chars_of, lines_of, split_lines, string_of_range, trim, trim_range, views};
use regex::Regex;
use vstd::prelude::*;

verus! {

/// `regex::Regex`: a compiled regular expression.
#[verifier::external_type_specification]
#[verifier::external_body]
pub struct ExRegex(Regex);

/// A struct of a document.
pub type GscCfgStruct = Stalker2CfgStruct;

/// An entry of a struct.
pub type GscCfgValue = Stalker2CfgValue;

/// The pattern that a `Regex` was compiled from.
pub uninterp spec fn regex_source(regex: Regex) -> Seq<char>;

/// Whether `Regex::new` accepts a pattern.
pub uninterp spec fn regex_compiles(pattern: Seq<char>) -> bool;

/// What `Regex::captures` finds of a pattern in a text: the whole match and
/// each group, a group that took no part as the empty text; `None` where the
/// pattern does not match.
pub uninterp spec fn regex_groups(pattern: Seq<char>, text: Seq<char>) -> Option<Seq<Seq<char>>>;

/// `Regex::new`: compiles a pattern.
#[verifier::external_body]
fn regex_new(pattern: &str) -> (compiled: Option<Regex>)
    ensures
        match compiled {
            Some(regex) => regex_compiles(pattern@) && regex_source(regex) == pattern@,
            None => !regex_compiles(pattern@),
        },
{
    Regex::new(pattern).ok()
}

/// `Regex::captures`: the first match of the pattern in the text, with its
/// groups.
#[verifier::external_body]
fn regex_captures(regex: &Regex, text: &str) -> (groups: Option<Vec<String>>)
    ensures
        match groups {
            Some(found) => regex_groups(regex_source(*regex), text@) == Some(texts(found@)),
            None => regex_groups(regex_source(*regex), text@) is None,
        },
{
    regex.captures(text).map(
        |found| found.iter().map(|g| g.map_or(String::new(), |m| m.as_str().to_owned())).collect(),
    )
}

/// A name without whitespace, `:`, the keyword, and the rest of the line.
pub open spec fn begin_pattern() -> Seq<char> {
    "^(\\S+)\\s*:\\s*struct.begin(.*)"@
}

/// The keyword at the start of the line.
pub open spec fn end_pattern() -> Seq<char> {
    "^struct.end"@
}

/// A name without whitespace, `=`, and the rest of the line.
pub open spec fn value_pattern() -> Seq<char> {
    "^(\\S+)\\s*=\\s*(.*)"@
}

/// What a line is, by the first of the three patterns that matches it
/// without its surrounding whitespace.
pub open spec fn gsc_classify(line: Seq<char>) -> Line {
    let t = trim(line);
    match regex_groups(begin_pattern(), t) {
        Some(groups) => {
            if groups.len() == 3 {
                Line::Open { name: groups[1], meta: groups[2] }
            } else {
                Line::Other
            }
        },
        None => {
            if regex_groups(end_pattern(), t) is Some {
                Line::Close
            } else {
                match regex_groups(value_pattern(), t) {
                    Some(groups) => {
                        if groups.len() == 3 {
                            Line::Value { name: groups[1], value: groups[2] }
                        } else {
                            Line::Other
                        }
                    },
                    None => Line::Other,
                }
            }
        },
    }
}

/// What each line is.
pub open spec fn gsc_kinds(lines: Seq<Seq<char>>) -> Seq<Line> {
    Seq::new(lines.len(), |i: int| gsc_classify(lines[i]))
}

/// Why a text is no document.
#[derive(Debug, Clone, Copy, PartialEq, Eq, Structural)]
pub enum GscError {
    /// A pattern of the format was not accepted.
    Pattern,
    /// The value on this line (counted from 1) stands outside any struct.
    RootValue { line: usize },
    /// `struct.end` on this line closes nothing.
    UnmatchedEnd { line: usize },
    /// The struct that is closed here is one more than a document holds. The
    /// structs that are still open at the end of the text are closed on lines
    /// of their own behind the last line, innermost first.
    TooManyStructs { line: usize },
}

/// The open scopes after the lines; a value needs an open struct.
pub open spec fn gsc_run(kinds: Seq<Line>) -> Result<Seq<Scope>, GscError>
    decreases kinds.len(),
{
    if kinds.len() == 0 {
        Ok(seq![root_scope()])
    } else {
        match gsc_run(kinds.drop_last()) {
            Ok(before) => {
                if kinds.last() is Value && before.len() <= 1 {
                    Err(GscError::RootValue { line: kinds.len() as usize })
                } else {
                    match advance(before, kinds.last()) {
                        Some(after) => Ok(after),
                        None => Err(GscError::UnmatchedEnd { line: kinds.len() as usize }),
                    }
                }
            },
            Err(e) => Err(e),
        }
    }
}

/// The entries of the document once every open struct is closed.
pub open spec fn close_all(scopes: Seq<Scope>) -> Seq<Entry>
    decreases scopes.len(),
{
    if scopes.len() == 0 {
        Seq::empty()
    } else if scopes.len() == 1 {
        scopes[0].entries
    } else {
        close_all(advance(scopes, Line::Close)->0)
    }
}

/// The entries that a text holds, or why it is no document.
pub open spec fn parse_gsc(text: Seq<char>) -> Result<Seq<Entry>, GscError> {
    if !regex_compiles(begin_pattern()) || !regex_compiles(end_pattern()) || !regex_compiles(
        value_pattern(),
    ) {
        Err(GscError::Pattern)
    } else {
        let kinds = gsc_kinds(lines_of(text));
        match gsc_run(kinds) {
            Ok(scopes) => match overflow_line(kinds + closes((scopes.len() - 1) as nat)) {
                Some(n) => Err(GscError::TooManyStructs { line: n as usize }),
                None => Ok(close_all(scopes)),
            },
            Err(e) => Err(e),
        }
    }
}

/// `n` lines that close a struct.
pub open spec fn closes(n: nat) -> Seq<Line> {
    Seq::new(n, |i: int| Line::Close)
}

/// Where the lines are read under the stricter rule, they are read alike
/// under the common one, and at least the document's own scope is open.
pub proof fn lemma_gsc_run(kinds: Seq<Line>)
    requires
        gsc_run(kinds) is Ok,
    ensures
        run_kinds(seq![root_scope()], kinds) == Ok::<Seq<Scope>, ParseError>(gsc_run(kinds)->Ok_0),
        gsc_run(kinds)->Ok_0.len() >= 1,
        gsc_run(kinds)->Ok_0.len() <= kinds.len() + 1,
    decreases kinds.len(),
{
    if kinds.len() > 0 {
        lemma_gsc_run(kinds.drop_last());
    }
}

/// Closing every open struct leaves the entries of `close_all`.
pub proof fn lemma_close_all(kinds: Seq<Line>, scopes: Seq<Scope>)
    requires
        scopes.len() >= 1,
        run_kinds(seq![root_scope()], kinds) == Ok::<Seq<Scope>, ParseError>(scopes),
    ensures
        parse_kinds(kinds + closes((scopes.len() - 1) as nat)) == Ok::<Seq<Entry>, ParseError>(
            close_all(scopes),
        ),
    decreases scopes.len(),
{
    let n = (scopes.len() - 1) as nat;
    if n == 0 {
        assert(kinds + closes(0) =~= kinds);
    } else {
        let next = advance(scopes, Line::Close)->0;
        let more = kinds.push(Line::Close);
        assert(more.drop_last() =~= kinds);
        assert(run_kinds(seq![root_scope()], more) == Ok::<Seq<Scope>, ParseError>(next));
        lemma_close_all(more, next);
        assert(more + closes((n - 1) as nat) =~= kinds + closes(n));
    }
}

/// A struct configuration document.
pub struct GscCfg {
    doc: Stalker2Cfg,
}

impl View for GscCfg {
    type V = Seq<Entry>;

    closed spec fn view(&self) -> Seq<Entry> {
        self.doc@
    }
}

impl GscCfg {
    /// Every key in the document addresses a node, and the nodes form trees.
    pub closed spec fn wf(&self) -> bool {
        self.doc.wf()
    }

    /// The name that the document was read under.
    pub closed spec fn spec_name(&self) -> Seq<char> {
        self.doc.spec_name()
    }

    /// The document as the common kind of document.
    pub fn document(&self) -> (doc: &Stalker2Cfg)
        ensures
            doc@ == self@,
            doc.spec_name() == self.spec_name(),
            doc.wf() == self.wf(),
    {
        &self.doc
    }

    /// Reads a document from its text. Lines are numbered from 1 in errors.
    pub fn from_str(name: String, cfg_str: &str) -> (result: Result<GscCfg, GscError>)
        ensures
            match result {
                Ok(doc) => doc.wf() && doc.spec_name() == name@ && parse_gsc(cfg_str@) == Ok::<
                    Seq<Entry>,
                    GscError,
                >(doc@),
                Err(e) => parse_gsc(cfg_str@) == Err::<Seq<Entry>, GscError>(e),
            },
    {
        let begin = match regex_new("^(\\S+)\\s*:\\s*struct.begin(.*)") {
            Some(regex) => regex,
            None => {
                return Err(GscError::Pattern);
            },
        };
        let end = match regex_new("^struct.end") {
            Some(regex) => regex,
            None => {
                return Err(GscError::Pattern);
            },
        };
        let value = match regex_new("^(\\S+)\\s*=\\s*(.*)") {
            Some(regex) => regex,
            None => {
                return Err(GscError::Pattern);
            },
        };
        let text = chars_of(cfg_str);
        let lines = split_lines(&text);
        let ghost kinds = gsc_kinds(views(lines@));
        let mut tokens: Vec<Token> = Vec::new();
        let mut depth: usize = 0;
        let mut i: usize = 0;
        proof {
            assert(kinds.take(0) =~= Seq::<Line>::empty());
        }
        while i < lines.len()
            invariant
                i <= lines.len(),
                views(lines@) == lines_of(cfg_str@),
                kinds == gsc_kinds(views(lines@)),
                regex_source(begin) == begin_pattern(),
                regex_source(end) == end_pattern(),
                regex_source(value) == value_pattern(),
                regex_compiles(begin_pattern()),
                regex_compiles(end_pattern()),
                regex_compiles(value_pattern()),
                tokens@.len() == i,
                token_views(tokens@) == kinds.take(i as int),
                depth <= i,
                gsc_run(kinds.take(i as int)) is Ok,
                gsc_run(kinds.take(i as int))->Ok_0.len() == depth + 1,
            decreases lines.len() - i,
        {
            let line = &lines[i];
            let ghost upto = kinds.take(i + 1);
            let ghost held = token_views(tokens@);
            proof {
                assert(upto.drop_last() =~= kinds.take(i as int));
                assert(upto.last() == gsc_classify(line@));
                assert(line@.subrange(0, line@.len() as int) =~= line@);
            }
            let (lo, hi) = trim_range(line, 0, line.len());
            let trimmed = string_of_range(line, lo, hi);
            let token = match regex_captures(&begin, trimmed.as_str()) {
                Some(groups) => {
                    if groups.len() == 3 {
                        Token::Open { name: groups[1].clone(), meta: groups[2].clone() }
                    } else {
                        Token::Other
                    }
                },
                None => {
                    if regex_captures(&end, trimmed.as_str()).is_some() {
                        Token::Close
                    } else {
                        match regex_captures(&value, trimmed.as_str()) {
                            Some(groups) => {
                                if groups.len() == 3 {
                                    Token::Value {
                                        name: groups[1].clone(),
                                        value: groups[2].clone(),
                                    }
                                } else {
                                    Token::Other
                                }
                            },
                            None => Token::Other,
                        }
                    }
                },
            };
            assert(token@ == gsc_classify(line@));
            match &token {
                Token::Open { .. } => {
                    depth += 1;
                },
                Token::Close => {
                    if depth == 0 {
                        proof {
                            lemma_gsc_fails(kinds, i + 1);
                        }
                        return Err(GscError::UnmatchedEnd { line: i + 1 });
                    }
                    depth -= 1;
                },
                Token::Value { .. } => {
                    if depth == 0 {
                        proof {
                            lemma_gsc_fails(kinds, i + 1);
                        }
                        return Err(GscError::RootValue { line: i + 1 });
                    }
                },
                _ => {},
            }
            tokens.push(token);
            assert(token_views(tokens@) =~= held.push(token@));
            assert(upto =~= kinds.take(i as int).push(token@));
            i += 1;
        }
        let ghost scopes = gsc_run(kinds)->Ok_0;
        proof {
            assert(kinds.take(lines.len() as int) =~= kinds);
            lemma_gsc_run(kinds);
            lemma_close_all(kinds, scopes);
        }
        let mut k: usize = 0;
        while k < depth
            invariant
                k <= depth <= lines.len(),
                token_views(tokens@) == kinds + closes(k as nat),
                kinds.len() == lines.len(),
            decreases depth - k,
        {
            let ghost held = token_views(tokens@);
            tokens.push(Token::Close);
            assert(token_views(tokens@) =~= held.push(Line::Close));
            assert(kinds + closes(k as nat + 1) =~= (kinds + closes(k as nat)).push(Line::Close));
            k += 1;
        }
        proof {
            let all = kinds + closes(depth as nat);
            if overflow_line(all) is Some {
                // every line reads and every struct is closed: only the limit is left
                lemma_overflow_first(all);
                let n = overflow_line(all)->0 as int;
                if run_kinds(seq![root_scope()], all.take(n)) is Err {
                    lemma_run_fails(seq![root_scope()], all, n);
                }
            }
        }
        match Stalker2Cfg::from_tokens(name, &tokens) {
            Ok(doc) => Ok(GscCfg { doc }),
            Err(e) => {
                match e {
                    ParseError::TooManyStructs { line } => Err(GscError::TooManyStructs { line }),
                    _ => {
                        assert(false);
                        Err(GscError::Pattern)
                    },
                }
            },
        }
    }

    /// The text of the document: two lines around the entries of each
    /// struct, three spaces of indentation for each level of nesting.
    pub fn to_string(&self) -> (text: String)
        requires
            self.wf(),
        ensures
            text@ == crate::cfg_syntax::render_text(self@),
    {
        self.doc.to_string()
    }
}

/// Once a prefix of the lines has failed, the whole fails in the same way.
pub proof fn lemma_gsc_fails(kinds: Seq<Line>, upto: int)
    requires
        0 <= upto <= kinds.len(),
        gsc_run(kinds.take(upto)) is Err,
    ensures
        gsc_run(kinds) == gsc_run(kinds.take(upto)),
    decreases kinds.len() - upto,
{
    if upto < kinds.len() {
        assert(kinds.take(upto + 1).drop_last() =~= kinds.take(upto));
        lemma_gsc_fails(kinds, upto + 1);
    } else {
        assert(kinds.take(upto) =~= kinds);
    }
}

/// Merges what `our` and `their` documents changed against `base`: on a
/// collision theirs wins.
pub fn merge_cfg_structs(base: &GscCfg, our: &GscCfg, their: &GscCfg) -> (result: Result<
    GscCfg,
    MergeError,
>)
    requires
        base.wf(),
        our.wf(),
        their.wf(),
    ensures
        match result {
            Ok(doc) => doc.wf() && merged_cfg(
                (base.spec_name(), base@),
                (our.spec_name(), our@),
                (their.spec_name(), their@),
            ) == Ok::<(Seq<char>, Seq<Entry>), MergeError>((doc.spec_name(), doc@)),
            Err(e) => merged_cfg(
                (base.spec_name(), base@),
                (our.spec_name(), our@),
                (their.spec_name(), their@),
            ) == Err::<(Seq<char>, Seq<Entry>), MergeError>(e),
        },
{
    match crate::stalker2_cfg::merge_cfg_structs(&base.doc, &our.doc, &their.doc) {
        Ok(doc) => Ok(GscCfg { doc }),
        Err(e) => Err(e),
    }
}

} // verus!
