use upmm::git::normalize_git_ref;

#[test]
fn normalize_replaces_forbidden_characters() {
    let name = normalize_git_ref("My Mod: v1.0!");
    assert_eq!(name, "My_Mod__v1.0!");
    for c in name.chars() {
        assert!(!"~^:?*[\\ ".contains(c));
    }
    assert_eq!(normalize_git_ref(&name), name);
    assert_eq!(normalize_git_ref("tab\there~^:?*[\\\u{7f}"), "tab_here________");
}

#[test]
fn normalize_collapses_and_trims_separators() {
    assert_eq!(normalize_git_ref("//a///b//"), "a/b");
    assert_eq!(normalize_git_ref("/"), "");
    assert_eq!(normalize_git_ref(""), "");
    assert_eq!(normalize_git_ref("a/ /b"), "a/_/b");
}

#[test]
fn normalize_drops_dot_components_and_double_dots() {
    assert_eq!(normalize_git_ref("a/./b"), "a/b");
    assert_eq!(normalize_git_ref("a/../b"), "a/b");
    assert_eq!(normalize_git_ref("./a"), "a");
    assert_eq!(normalize_git_ref("a..b"), "a.b");
    assert_eq!(normalize_git_ref("..."), "");
    assert_eq!(normalize_git_ref("a/."), "a");
    assert_eq!(normalize_git_ref(".hidden/x.y"), ".hidden/x.y");
}

#[test]
fn normalize_keeps_inner_dots_and_strips_trailing_ones() {
    assert_eq!(normalize_git_ref("v1.0."), "v1.0");
    assert_eq!(normalize_git_ref("name."), "name");
    assert_eq!(normalize_git_ref("name..."), "name");
    assert_eq!(normalize_git_ref("zzzz_Grok_Boar-40pHP_P.pak"), "zzzz_Grok_Boar-40pHP_P.pak");
    assert_eq!(normalize_git_ref("\u{e9}t\u{e9}"), "\u{e9}t\u{e9}");
}

#[test]
fn normalize_replaces_at_brace_lock_and_lone_at() {
    assert_eq!(normalize_git_ref("x@{y"), "x__y");
    assert_eq!(normalize_git_ref("@@{{"), "@__{");
    assert_eq!(normalize_git_ref("branch.lock"), "branch_lock");
    assert_eq!(normalize_git_ref("a.lock/b"), "a.lock/b");
    assert_eq!(normalize_git_ref("a.lock."), "a_lock");
    assert_eq!(normalize_git_ref("@"), "_");
    assert_eq!(normalize_git_ref("@."), "_");
    assert_eq!(normalize_git_ref("a@b"), "a@b");
}

#[test]
fn normalize_is_idempotent_on_samples() {
    for s in ["a//b/", "@.", "x.lock.", "  ", "/.//..", "ok-name_1", "a/./.lock.", "@{", ".@{.", "a. /.b"] {
        let once = normalize_git_ref(s);
        assert_eq!(normalize_git_ref(&once), once);
    }
}
