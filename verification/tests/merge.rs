use upmm::merge::{merge_json_strings, MergeError};

fn compact(text: &str) -> String {
    text.chars().filter(|c| !c.is_whitespace()).collect()
}

#[test]
fn field_collision_theirs_wins() {
    let merged = merge_json_strings("{\"x\":1}", "{\"x\":2}", "{\"x\":3}").unwrap();
    assert_eq!(merged, "{\n  \"x\": 3\n}");
}

#[test]
fn additions_of_both_sides_are_kept() {
    let merged = merge_json_strings("{}", "{\"a\":1}", "{\"b\":2}").unwrap();
    assert_eq!(compact(&merged), "{\"a\":1,\"b\":2}");
}

#[test]
fn one_sided_change_is_taken() {
    let base = "{\"k\":{\"a\":1,\"b\":[1,2]}}";
    let ours = "{\"k\":{\"a\":5,\"b\":[1,2]}}";
    assert_eq!(compact(&merge_json_strings(base, ours, base).unwrap()), compact(ours));
    assert_eq!(compact(&merge_json_strings(base, base, ours).unwrap()), compact(ours));
}

#[test]
fn invalid_json_is_reported_by_side() {
    assert_eq!(merge_json_strings("{", "{}", "{}"), Err(MergeError::BaseSyntax));
    assert_eq!(merge_json_strings("{}", "nope", "{}"), Err(MergeError::OursSyntax));
    assert_eq!(merge_json_strings("{}", "{}", "[1,"), Err(MergeError::TheirsSyntax));
}

#[test]
fn patch_that_no_longer_applies_is_an_error() {
    let result = merge_json_strings("{\"a\":{\"b\":1}}", "{}", "{\"a\":{\"b\":2}}");
    assert_eq!(result, Err(MergeError::TheirsPatch));
}
