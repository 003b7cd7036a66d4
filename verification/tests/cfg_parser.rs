use upmm::cfg_parser::{merge_cfg_structs, GscCfg, GscError};

fn read(text: &str) -> Result<GscCfg, GscError> {
    GscCfg::from_str("test.cfg".to_string(), text)
}

#[test]
fn gsc_reads_and_writes_structs() {
    let doc = read("A : struct.begin {x}\n  k = v\n  B:struct.begin\n    n=1\n  struct.end\nstruct.end\n").unwrap();
    assert_eq!(
        doc.to_string(),
        "A : struct.begin {x}\n   k = v\n   B : struct.begin\n      n = 1\n   struct.end\nstruct.end\n"
    );
}

#[test]
fn gsc_closes_open_structs_at_the_end() {
    let doc = read("A : struct.begin\nB : struct.begin\nx = 1\n").unwrap();
    assert_eq!(
        doc.to_string(),
        "A : struct.begin\n   B : struct.begin\n      x = 1\n   struct.end\nstruct.end\n"
    );
}

#[test]
fn gsc_value_outside_a_struct_is_an_error() {
    assert_eq!(read("x = 1\n").err(), Some(GscError::RootValue { line: 1 }));
    assert_eq!(
        read("A : struct.begin\nstruct.end\ny = 2\n").err(),
        Some(GscError::RootValue { line: 3 })
    );
}

#[test]
fn gsc_end_without_begin_is_an_error() {
    assert_eq!(read("note\nstruct.end\n").err(), Some(GscError::UnmatchedEnd { line: 2 }));
}

#[test]
fn gsc_merge_takes_changes_of_both_sides() {
    let base = read("A : struct.begin\nx = 1\ny = 1\nstruct.end\n").unwrap();
    let ours = read("A : struct.begin\nx = 2\ny = 1\nstruct.end\n").unwrap();
    let theirs = read("A : struct.begin\nx = 1\ny = 3\nstruct.end\n").unwrap();
    let merged = merge_cfg_structs(&base, &ours, &theirs).unwrap();
    assert_eq!(merged.to_string(), "A : struct.begin\n   x = 2\n   y = 3\nstruct.end\n");
    assert_eq!(merged.document().name(), "test.cfg");
}
