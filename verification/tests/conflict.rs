use upmm::cfg_syntax::ParseError;
use upmm::conflict::{codec_for, resolve_conflict, Codec, ConflictError, Side};
use upmm::git::{file_bias, next_strategy, FileBias, MergeStrategy};
use upmm::merge::MergeError;

#[test]
fn codec_goes_by_the_ending() {
    assert_eq!(codec_for("a/b.json"), Some(Codec::Json));
    assert_eq!(codec_for("a/b.cfg"), Some(Codec::StructConfig));
    assert_eq!(codec_for("Game.ini"), Some(Codec::Ini));
    assert_eq!(codec_for("a/b.txt"), None);
    assert_eq!(codec_for("cfg"), None);
    assert_eq!(codec_for(""), None);
}

#[test]
fn json_conflict_is_merged() {
    let merged = resolve_conflict("x.json", "{\"x\":1}", "{\"x\":2}", "{\"x\":3}").unwrap();
    assert_eq!(merged, "{\n  \"x\": 3\n}\n");
}

#[test]
fn cfg_conflict_is_merged() {
    let merged = resolve_conflict("x.cfg", "a = 1\nb = 1\n", "a = 2\nb = 1\n", "a = 1\nb = 3\n");
    assert_eq!(merged.unwrap(), "a = 2\nb = 3\n\n");
}

#[test]
fn ini_conflict_is_merged() {
    let merged = resolve_conflict("x.ini", "[S]\na=1\n", "[S]\na=1\nb=2\n", "[S]\na=5\n");
    assert_eq!(merged.unwrap(), "[S]\na = 5\nb = 2\n\n\n");
}

#[test]
fn file_without_codec_stays_unresolved() {
    assert_eq!(resolve_conflict("x.bin", "a", "b", "c"), Err(ConflictError::NoCodec));
}

#[test]
fn version_that_cannot_be_read_stays_unresolved() {
    assert_eq!(
        resolve_conflict("x.cfg", "a = 1\n", "struct.end\n", "a = 2\n"),
        Err(ConflictError::Syntax { side: Side::Ours, error: ParseError::UnmatchedEnd { line: 1 } })
    );
    assert_eq!(
        resolve_conflict("x.json", "{}", "{}", "{"),
        Err(ConflictError::Merge { cause: MergeError::TheirsSyntax })
    );
}

#[test]
fn escalation_runs_custom_theirs_overwrite() {
    assert_eq!(next_strategy(MergeStrategy::Custom, true), Some(MergeStrategy::Theirs));
    assert_eq!(next_strategy(MergeStrategy::Theirs, true), Some(MergeStrategy::Overwrite));
    assert_eq!(next_strategy(MergeStrategy::Overwrite, true), None);
    assert_eq!(next_strategy(MergeStrategy::Custom, false), None);
    assert_eq!(next_strategy(MergeStrategy::Theirs, false), None);
    assert_eq!(next_strategy(MergeStrategy::Overwrite, false), None);
}

#[test]
fn escalation_with_a_file_without_codec_ends_in_overwrite() {
    let mut strategy = MergeStrategy::Custom;
    let mut passes = 1;
    loop {
        let unresolved = resolve_conflict("data.bin", "a", "b", "c").is_err();
        match next_strategy(strategy, unresolved) {
            Some(next) => {
                strategy = next;
                passes += 1;
            }
            None => break,
        }
    }
    assert_eq!(strategy, MergeStrategy::Overwrite);
    assert_eq!(passes, 3);
}

#[test]
fn bias_of_each_strategy() {
    assert_eq!(file_bias(MergeStrategy::Custom), FileBias::Incoming);
    assert_eq!(file_bias(MergeStrategy::Theirs), FileBias::Incoming);
    assert_eq!(file_bias(MergeStrategy::Overwrite), FileBias::Baseline);
}

#[test]
fn unresolved_file_keeps_the_baseline_content() {
    let settled = upmm::conflict::settle_conflict("data.bin", "base", "ours", "theirs");
    assert!(!settled.resolved);
    assert_eq!(settled.content, "ours");
    let merged = upmm::conflict::settle_conflict("x.json", "{}", "{\"a\":1}", "{}");
    assert!(merged.resolved);
    assert_eq!(merged.content, "{\n  \"a\": 1\n}\n");
}
