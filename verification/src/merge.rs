//! The three-way structural merge: what each side changed against the common
//! base is applied to the base, ours first and theirs last, so that on a
//! collision theirs wins.

use crate::json::{
    json_apply, json_diff, json_diff_values, json_from_str, json_model, json_parsed, json_patched,
    json_pretty, json_to_string_pretty, Json,
};
use serde_json::Value;
use vstd::prelude::*;

verus! {

/// Why a merge gave no result.
#[derive(Debug, Clone, Copy, PartialEq, Eq, Structural)]
pub enum MergeError {
    /// The base text is no JSON.
    BaseSyntax,
    /// Our text is no JSON.
    OursSyntax,
    /// Their text is no JSON.
    TheirsSyntax,
    /// What we changed does not apply to the base.
    OursPatch,
    /// What they changed does not apply to the base with our changes.
    TheirsPatch,
    /// The merged value could not be written.
    Write,
    /// The merged value has not the shape of a document.
    Shape,
    /// The merged document is too large to be read back.
    TooLarge,
}

/// The base with our changes, then theirs; the error where a patch fails.
pub open spec fn merged_json(base: Json, ours: Json, theirs: Json) -> Result<Json, MergeError> {
    match json_patched(base, json_diff(base, ours)) {
        Some(mid) => match json_patched(mid, json_diff(base, theirs)) {
            Some(merged) => Ok(merged),
            None => Err(MergeError::TheirsPatch),
        },
        None => Err(MergeError::OursPatch),
    }
}

/// The merge of three JSON texts, written as indented text.
pub open spec fn merged_text(base: Seq<char>, ours: Seq<char>, theirs: Seq<char>) -> Result<
    Seq<char>,
    MergeError,
> {
    if json_parsed(base) is None {
        Err(MergeError::BaseSyntax)
    } else if json_parsed(ours) is None {
        Err(MergeError::OursSyntax)
    } else if json_parsed(theirs) is None {
        Err(MergeError::TheirsSyntax)
    } else {
        match merged_json(json_parsed(base)->0, json_parsed(ours)->0, json_parsed(theirs)->0) {
            Ok(merged) => match json_pretty(merged) {
                Some(text) => Ok(text),
                None => Err(MergeError::Write),
            },
            Err(e) => Err(e),
        }
    }
}

/// Merges our value and theirs into the base.
pub fn merge_json_values(base: Value, ours: &Value, theirs: &Value) -> (result: Result<
    Value,
    MergeError,
>)
    ensures
        match result {
            Ok(merged) => merged_json(json_model(base), json_model(*ours), json_model(*theirs))
                == Ok::<Json, MergeError>(json_model(merged)),
            Err(e) => merged_json(json_model(base), json_model(*ours), json_model(*theirs))
                == Err::<Json, MergeError>(e),
        },
{
    let our_diff = json_diff_values(&base, ours);
    let their_diff = json_diff_values(&base, theirs);
    let mut doc = base;
    match json_apply(&mut doc, &our_diff) {
        Ok(_) => {},
        Err(_) => {
            return Err(MergeError::OursPatch);
        },
    }
    match json_apply(&mut doc, &their_diff) {
        Ok(_) => {},
        Err(_) => {
            return Err(MergeError::TheirsPatch);
        },
    }
    Ok(doc)
}

/// Merges three JSON texts: what `ours` and `theirs` each changed against
/// `base` is applied to `base`, theirs last.
pub fn merge_json_strings(base: &str, ours: &str, theirs: &str) -> (result: Result<
    String,
    MergeError,
>)
    ensures
        match result {
            Ok(text) => merged_text(base@, ours@, theirs@) == Ok::<Seq<char>, MergeError>(text@),
            Err(e) => merged_text(base@, ours@, theirs@) == Err::<Seq<char>, MergeError>(e),
        },
{
    let base_json = match json_from_str(base) {
        Ok(value) => value,
        Err(_) => {
            return Err(MergeError::BaseSyntax);
        },
    };
    let our_json = match json_from_str(ours) {
        Ok(value) => value,
        Err(_) => {
            return Err(MergeError::OursSyntax);
        },
    };
    let their_json = match json_from_str(theirs) {
        Ok(value) => value,
        Err(_) => {
            return Err(MergeError::TheirsSyntax);
        },
    };
    let merged = match merge_json_values(base_json, &our_json, &their_json) {
        Ok(value) => value,
        Err(e) => {
            return Err(e);
        },
    };
    match json_to_string_pretty(&merged) {
        Ok(text) => Ok(text),
        Err(_) => Err(MergeError::Write),
    }
}

} // verus!
