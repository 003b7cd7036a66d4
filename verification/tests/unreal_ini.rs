use upmm::unreal_ini::{merge_unreal_inis, UnrealIni};

#[test]
fn ini_parses_sections_in_order() {
    let ini = UnrealIni::from_str("; note\n[Core]\nA=1\nB = two words  \n\n[Other]\nC =\n[Core]\nZ= 9\n");
    assert_eq!(
        ini.to_string(),
        "[Core]\nA = 1\nB = two words\nZ = 9\n\n[Other]\nC = \n\n"
    );
}

#[test]
fn ini_key_is_replaced_in_place() {
    let ini = UnrealIni::from_str("[S]\na=1\nb=2\na=3\n");
    assert_eq!(ini.to_string(), "[S]\na = 3\nb = 2\n\n");
}

#[test]
fn ini_pair_before_any_section_goes_to_unnamed_section() {
    let ini = UnrealIni::from_str("x = 1\n[S]\ny=2\n");
    assert_eq!(ini.to_string(), "[]\nx = 1\n\n[S]\ny = 2\n\n");
}

#[test]
fn ini_ignores_lines_without_separator() {
    let ini = UnrealIni::from_str("[S]\nnot a pair\nkey value = 3\nk\t=\tv\n");
    assert_eq!(ini.to_string(), "[S]\nk = v\n\n");
    assert_eq!(UnrealIni::from_str("").to_string(), "");
}

#[test]
fn merge_ini_takes_changes_of_both_sides() {
    let base = UnrealIni::from_str("[S]\na=1\nb=1\n");
    let ours = UnrealIni::from_str("[S]\na=2\nb=1\n");
    let theirs = UnrealIni::from_str("[S]\na=1\nb=3\n[T]\nc=4\n");
    let merged = merge_unreal_inis(&base, &ours, &theirs).unwrap();
    assert_eq!(merged.to_string(), "[S]\na = 2\nb = 3\n\n[T]\nc = 4\n\n");
}

#[test]
fn merge_ini_collision_theirs_wins() {
    let base = UnrealIni::from_str("[S]\nx=1\n");
    let ours = UnrealIni::from_str("[S]\nx=2\n");
    let theirs = UnrealIni::from_str("[S]\nx=3\n");
    let merged = merge_unreal_inis(&base, &ours, &theirs).unwrap();
    assert_eq!(merged.to_string(), "[S]\nx = 3\n\n");
}

#[test]
fn ini_repeated_header_reopens_its_section() {
    let ini = UnrealIni::from_str("[A]\na = 1\n[B]\nb = 2\n[A]\nc = 3\n");
    assert_eq!(ini.to_string(), "[A]\na = 1\nc = 3\n\n[B]\nb = 2\n\n");
    let twice = UnrealIni::from_str("[A]\n[A]\n[B]\n[A]\nk = 1\nk = 2\n");
    assert_eq!(twice.to_string(), "[A]\nk = 2\n\n[B]\n\n");
}

#[test]
fn ini_from_json_lists_every_section_in_key_order() {
    let ini = UnrealIni::from_str("[Zeta]\nb = 2\na = 1\n[Alpha]\nk = v\n");
    let back = UnrealIni::from_json(&ini.to_json()).unwrap();
    assert_eq!(back.to_string(), "[Alpha]\nk = v\n\n[Zeta]\na = 1\nb = 2\n\n");
}
