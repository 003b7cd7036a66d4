//! Resolving a conflicted file: the codec is chosen by the file's name, the
//! three versions are read, merged and written out again.

use crate::cfg_syntax::{read_text, render_text, ParseError};
use crate::merge::{merge_json_strings, merged_text, MergeError};
use crate::stalker2_cfg::{merge_cfg_structs, merged_cfg, Stalker2Cfg};
use crate::text::{chars_of, matches_at};
use crate::unreal_ini::{merge_unreal_inis, merged_ini, parse_ini, render_ini, UnrealIni};
use vstd::prelude::*;

verus! {

/// The formats that can be merged by structure.
#[derive(Debug, Clone, Copy, PartialEq, Eq, Structural)]
pub enum Codec {
    Json,
    StructConfig,
    Ini,
}

/// Which of the three versions of a file is meant.
#[derive(Debug, Clone, Copy, PartialEq, Eq, Structural)]
pub enum Side {
    Base,
    Ours,
    Theirs,
}

/// Why a conflicted file stays unresolved.
#[derive(Debug, Clone, Copy, PartialEq, Eq, Structural)]
pub enum ConflictError {
    /// No codec reads files of this name.
    NoCodec,
    /// One version is no document.
    Syntax { side: Side, error: ParseError },
    /// The versions did not merge.
    Merge { cause: MergeError },
}

/// Whether `text` ends with `tail`.
pub open spec fn ends_with(text: Seq<char>, tail: Seq<char>) -> bool {
    tail.len() <= text.len() && text.subrange(text.len() - tail.len(), text.len() as int) == tail
}

/// The codec for a file of this name, by its ending.
pub open spec fn codec_of(path: Seq<char>) -> Option<Codec> {
    if ends_with(path, ".json"@) {
        Some(Codec::Json)
    } else if ends_with(path, ".cfg"@) {
        Some(Codec::StructConfig)
    } else if ends_with(path, ".ini"@) {
        Some(Codec::Ini)
    } else {
        None
    }
}

/// The merged struct configuration text of three versions.
pub open spec fn resolved_cfg(path: Seq<char>, base: Seq<char>, ours: Seq<char>, theirs: Seq<char>) -> Result<
    Seq<char>,
    ConflictError,
> {
    if read_text(base) is Err {
        Err(ConflictError::Syntax { side: Side::Base, error: read_text(base)->Err_0 })
    } else if read_text(ours) is Err {
        Err(ConflictError::Syntax { side: Side::Ours, error: read_text(ours)->Err_0 })
    } else if read_text(theirs) is Err {
        Err(ConflictError::Syntax { side: Side::Theirs, error: read_text(theirs)->Err_0 })
    } else {
        match merged_cfg(
            (path, read_text(base)->Ok_0),
            (path, read_text(ours)->Ok_0),
            (path, read_text(theirs)->Ok_0),
        ) {
            Ok(doc) => Ok(render_text(doc.1)),
            Err(cause) => Err(ConflictError::Merge { cause }),
        }
    }
}

/// The merged content of a conflicted file, a line feed behind it; or why
/// the file stays unresolved.
pub open spec fn resolved(path: Seq<char>, base: Seq<char>, ours: Seq<char>, theirs: Seq<char>) -> Result<
    Seq<char>,
    ConflictError,
> {
    match codec_of(path) {
        None => Err(ConflictError::NoCodec),
        Some(Codec::Json) => match merged_text(base, ours, theirs) {
            Ok(text) => Ok(text.push('\n')),
            Err(cause) => Err(ConflictError::Merge { cause }),
        },
        Some(Codec::StructConfig) => match resolved_cfg(path, base, ours, theirs) {
            Ok(text) => Ok(text.push('\n')),
            Err(e) => Err(e),
        },
        Some(Codec::Ini) => match merged_ini(parse_ini(base), parse_ini(ours), parse_ini(theirs)) {
            Ok(sections) => Ok(render_ini(sections, sections.len()).push('\n')),
            Err(cause) => Err(ConflictError::Merge { cause }),
        },
    }
}

fn has_ending(path: &Vec<char>, tail: &str) -> (b: bool)
    ensures
        b == ends_with(path@, tail@),
{
    let pat = chars_of(tail);
    if pat.len() > path.len() {
        return false;
    }
    matches_at(path, path.len() - pat.len(), &pat)
}

/// The codec for a file of this name: `.json`, `.cfg` or `.ini`.
pub fn codec_for(path: &str) -> (codec: Option<Codec>)
    ensures
        codec == codec_of(path@),
{
    let chars = chars_of(path);
    if has_ending(&chars, ".json") {
        Some(Codec::Json)
    } else if has_ending(&chars, ".cfg") {
        Some(Codec::StructConfig)
    } else if has_ending(&chars, ".ini") {
        Some(Codec::Ini)
    } else {
        None
    }
}

/// Reads one version of a struct configuration file.
fn read_cfg(path: &str, text: &str, side: Side) -> (result: Result<Stalker2Cfg, ConflictError>)
    ensures
        match result {
            Ok(doc) => doc.wf() && doc.spec_name() == path@ && read_text(text@) == Ok::<
                Seq<crate::cfg_syntax::Entry>,
                ParseError,
            >(doc@),
            Err(e) => read_text(text@) is Err && e == (ConflictError::Syntax {
                side,
                error: read_text(text@)->Err_0,
            }),
        },
{
    match Stalker2Cfg::from_str(path.to_owned(), text) {
        Ok(doc) => Ok(doc),
        Err(error) => Err(ConflictError::Syntax { side, error }),
    }
}

fn with_line_feed(text: String) -> (out: String)
    ensures
        out@ == text@.push('\n'),
{
    let mut out = text;
    out.push('\n');
    out
}

/// Merges the three versions of a conflicted file by the codec for its
/// name. The result ends with a line feed.
pub fn resolve_conflict(path: &str, base: &str, ours: &str, theirs: &str) -> (result: Result<
    String,
    ConflictError,
>)
    ensures
        match result {
            Ok(text) => resolved(path@, base@, ours@, theirs@) == Ok::<Seq<char>, ConflictError>(
                text@,
            ),
            Err(e) => resolved(path@, base@, ours@, theirs@) == Err::<Seq<char>, ConflictError>(e),
        },
{
    match codec_for(path) {
        None => Err(ConflictError::NoCodec),
        Some(Codec::Json) => match merge_json_strings(base, ours, theirs) {
            Ok(text) => Ok(with_line_feed(text)),
            Err(cause) => Err(ConflictError::Merge { cause }),
        },
        Some(Codec::StructConfig) => {
            let base_cfg = match read_cfg(path, base, Side::Base) {
                Ok(doc) => doc,
                Err(e) => {
                    return Err(e);
                },
            };
            let our_cfg = match read_cfg(path, ours, Side::Ours) {
                Ok(doc) => doc,
                Err(e) => {
                    return Err(e);
                },
            };
            let their_cfg = match read_cfg(path, theirs, Side::Theirs) {
                Ok(doc) => doc,
                Err(e) => {
                    return Err(e);
                },
            };
            match merge_cfg_structs(&base_cfg, &our_cfg, &their_cfg) {
                Ok(doc) => Ok(with_line_feed(doc.to_string())),
                Err(cause) => Err(ConflictError::Merge { cause }),
            }
        },
        Some(Codec::Ini) => {
            let base_ini = UnrealIni::from_str(base);
            let our_ini = UnrealIni::from_str(ours);
            let their_ini = UnrealIni::from_str(theirs);
            match merge_unreal_inis(&base_ini, &our_ini, &their_ini) {
                Ok(ini) => Ok(with_line_feed(ini.to_string())),
                Err(cause) => Err(ConflictError::Merge { cause }),
            }
        },
    }
}

/// What is written for a conflicted file, and whether that resolves it.
pub struct Settlement {
    pub content: String,
    pub resolved: bool,
}

/// Settles a conflicted file: with the merged content where the versions
/// merge; else with the baseline's content as it is, unresolved, so that the
/// layer is merged again under the next strategy.
pub fn settle_conflict(path: &str, base: &str, ours: &str, theirs: &str) -> (settled: Settlement)
    ensures
        settled.resolved == (resolved(path@, base@, ours@, theirs@) is Ok),
        settled.content@ == match resolved(path@, base@, ours@, theirs@) {
            Ok(text) => text,
            Err(_) => ours@,
        },
{
    match resolve_conflict(path, base, ours, theirs) {
        Ok(content) => Settlement { content, resolved: true },
        Err(_) => Settlement { content: ours.to_owned(), resolved: false },
    }
}

} // verus!
