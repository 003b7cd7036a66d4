use upmm::cfg_syntax::ParseError;
use upmm::stalker2_cfg::{merge_cfg_structs, Stalker2Cfg};

fn parse(text: &str) -> Result<Stalker2Cfg, ParseError> {
    Stalker2Cfg::from_str("test.cfg".to_string(), text)
}

#[test]
fn parses_and_writes_nested_structs() {
    let text = "Top = 1\nA : struct.begin {refurl=x}\n  B = 2\n  // note\n  C : struct.begin\n    D = 3 \n  struct.end\nstruct.end\nE =\n";
    let doc = parse(text).unwrap();
    let out = doc.to_string();
    assert_eq!(
        out,
        "Top = 1\nA : struct.begin {refurl=x}\n   B = 2\n   C : struct.begin\n      D = 3 \n   struct.end\nstruct.end\nE = \n"
    );
}

#[test]
fn round_trip_is_stable() {
    let text = "  x:y = 1\r\n[0] : struct.begin\r\n\tk = v w\r\nstruct.end";
    let first = parse(text).unwrap().to_string();
    assert_eq!(first, "x:y = 1\n[0] : struct.begin\n   k = v w\nstruct.end\n");
    let second = parse(&first).unwrap().to_string();
    assert_eq!(first, second);
}

#[test]
fn extra_struct_end_names_its_line() {
    let text = "A : struct.begin\nstruct.end\nstruct.end\n";
    assert_eq!(parse(text).err(), Some(ParseError::UnmatchedEnd { line: 3 }));
}

#[test]
fn unclosed_struct_is_an_error() {
    let text = "A : struct.begin\nB : struct.begin\nstruct.end\n";
    assert_eq!(parse(text).err(), Some(ParseError::Unclosed { count: 1 }));
}

#[test]
fn stray_keywords_are_errors() {
    assert_eq!(
        parse("a = struct.begin\n").err(),
        Some(ParseError::UnprocessedBegin { line: 1 })
    );
    assert_eq!(
        parse("ok = 1\nstruct.end trailing\n").err(),
        Some(ParseError::UnprocessedEnd { line: 2 })
    );
}

#[test]
fn empty_text_is_an_empty_document() {
    let doc = parse("").unwrap();
    assert_eq!(doc.to_string(), "");
    assert_eq!(doc.name(), "test.cfg");
}

#[test]
fn merge_cfg_takes_changes_of_both_sides() {
    let base = parse("A : struct.begin\n   x = 1\n   y = 1\nstruct.end\n").unwrap();
    let ours = parse("A : struct.begin\n   x = 2\n   y = 1\nstruct.end\n").unwrap();
    let theirs = parse("A : struct.begin\n   x = 1\n   y = 3\n   z = 4\nstruct.end\n").unwrap();
    let merged = merge_cfg_structs(&base, &ours, &theirs).unwrap();
    assert_eq!(merged.to_string(), "A : struct.begin\n   x = 2\n   y = 3\n   z = 4\nstruct.end\n");
    assert_eq!(merged.name(), "test.cfg");
}

#[test]
fn merge_cfg_collision_theirs_wins() {
    let base = parse("x = 1\n").unwrap();
    let ours = parse("x = 2\n").unwrap();
    let theirs = parse("x = 3\n").unwrap();
    let merged = merge_cfg_structs(&base, &ours, &theirs).unwrap();
    assert_eq!(merged.to_string(), "x = 3\n");
}

#[test]
fn cfg_json_round_trip() {
    let doc = parse("a = 1\nS : struct.begin {m}\n   T : struct.begin\n      b = 2\n   struct.end\nstruct.end\n").unwrap();
    let back = Stalker2Cfg::from_json(&doc.to_json()).unwrap();
    assert_eq!(back.to_string(), doc.to_string());
}
