use upmm::cfg_syntax::ParseError;
use upmm::modpack::{
    find_priority, integration_order, normalize_content, text_less_eq, ModEntry, NormalizeError,
};

fn names(list: &[&str]) -> Vec<String> {
    list.iter().map(|s| s.to_string()).collect()
}

fn plan(order: &[ModEntry]) -> Vec<(String, i64)> {
    order.iter().map(|m| (m.name.clone(), m.priority)).collect()
}

#[test]
fn default_priorities_follow_names() {
    let order = integration_order(&names(&["c.pak", "a.pak", "b.pak"]), &vec![]);
    assert_eq!(
        plan(&order),
        vec![("a.pak".to_string(), 0), ("b.pak".to_string(), 1), ("c.pak".to_string(), 2)]
    );
}

#[test]
fn explicit_priorities_order_the_mods() {
    let overrides = vec![("x".to_string(), 2), ("y".to_string(), 1), ("z".to_string(), 3)];
    let shuffled = integration_order(&names(&["x", "z", "y"]), &overrides);
    let sorted = integration_order(&names(&["y", "x", "z"]), &overrides);
    let expected = vec![("y".to_string(), 1), ("x".to_string(), 2), ("z".to_string(), 3)];
    assert_eq!(plan(&shuffled), expected);
    assert_eq!(plan(&sorted), expected);
}

#[test]
fn explicit_priority_overrides_the_position() {
    let overrides = vec![("zzzz.pak".to_string(), -1000)];
    let order = integration_order(&names(&["b", "zzzz.pak", "a"]), &overrides);
    assert_eq!(
        plan(&order),
        vec![("zzzz.pak".to_string(), -1000), ("a".to_string(), 0), ("b".to_string(), 1)]
    );
}

#[test]
fn equal_priorities_go_by_name() {
    let overrides = vec![("b".to_string(), 0)];
    let order = integration_order(&names(&["b", "a"]), &overrides);
    assert_eq!(plan(&order), vec![("a".to_string(), 0), ("b".to_string(), 0)]);
    assert!(integration_order(&vec![], &overrides).is_empty());
}

#[test]
fn text_order_is_the_byte_order() {
    assert!(text_less_eq("decrease_health", "decrease_health_again"));
    assert!(!text_less_eq("b", "a"));
    assert!(text_less_eq("Z", "a"));
    assert!(text_less_eq("", ""));
    assert!(text_less_eq("a", "é"));
    assert_eq!(find_priority(&vec![("m".to_string(), 7)], &"m".to_string()), Some(7));
    assert_eq!(find_priority(&vec![("m".to_string(), 7)], &"n".to_string()), None);
}

#[test]
fn json_content_is_indented() {
    let out = normalize_content(Some("json"), "a.json", &b"{\"k\":[1,2]}".to_vec()).unwrap();
    assert_eq!(String::from_utf8(out).unwrap(), "{\n  \"k\": [\n    1,\n    2\n  ]\n}");
}

#[test]
fn cfg_content_is_rewritten() {
    let out = normalize_content(Some("cfg"), "a.cfg", &b"S : struct.begin\nx=1\nstruct.end".to_vec());
    assert_eq!(String::from_utf8(out.unwrap()).unwrap(), "S : struct.begin\n   x = 1\nstruct.end\n");
}

#[test]
fn other_content_stays() {
    let bytes = vec![0u8, 159, 146, 150];
    assert_eq!(normalize_content(Some("bin"), "a.bin", &bytes), Ok(bytes.clone()));
    assert_eq!(normalize_content(None, "a", &bytes), Ok(bytes.clone()));
}

#[test]
fn content_that_cannot_be_read_is_an_error() {
    let bad = vec![0xffu8, 0xfe];
    assert_eq!(normalize_content(Some("json"), "a.json", &bad), Err(NormalizeError::NotUtf8));
    assert_eq!(normalize_content(Some("cfg"), "a.cfg", &bad), Err(NormalizeError::NotUtf8));
    assert_eq!(
        normalize_content(Some("json"), "a.json", &b"{".to_vec()),
        Err(NormalizeError::JsonSyntax)
    );
    assert_eq!(
        normalize_content(Some("cfg"), "a.cfg", &b"struct.end".to_vec()),
        Err(NormalizeError::CfgSyntax { error: ParseError::UnmatchedEnd { line: 1 } })
    );
}
