//! Layer names and the strategies by which a layer is merged into the
//! baseline.

use crate::text::{chars_of, string_of};
use vstd::prelude::*;

verus! {

/// How the content of a conflicted file is chosen while a layer is merged.
#[derive(Debug, Clone, Copy, PartialEq, Eq, Structural)]
pub enum MergeStrategy {
    /// Resolve conflicted files by the structural merge of their content.
    Custom,
    /// Prefer the incoming layer on conflicts.
    Theirs,
    /// Keep the baseline content: the last resort.
    Overwrite,
}

/// The control characters: the two blocks C0 and C1, and delete.
pub open spec fn is_control(c: char) -> bool {
    let n = c as u32;
    n < 0x20 || (0x7F <= n <= 0x9F)
}

/// The characters that a name must not hold: control characters, space,
/// and `~ ^ : ? * [ \`.
pub open spec fn is_forbidden(c: char) -> bool {
    is_control(c) || c == ' ' || c == '~' || c == '^' || c == ':' || c == '?' || c == '*' || c
        == '[' || c == '\\'
}

/// What stands in a name for a character: `_` for a forbidden one, else the
/// character itself.
pub open spec fn ref_char(c: char) -> char {
    if is_forbidden(c) {
        '_'
    } else {
        c
    }
}

/// Whether the last component of `s` is exactly `.`.
pub open spec fn ends_dot_component(s: Seq<char>) -> bool {
    s.len() > 0 && s.last() == '.' && (s.len() == 1 || s[s.len() - 2] == '/')
}

/// `s` without a last component that is exactly `.`.
pub open spec fn drop_dot_component(s: Seq<char>) -> Seq<char> {
    if ends_dot_component(s) {
        s.drop_last()
    } else {
        s
    }
}

/// The name read left to right. Forbidden characters become `_`. A `/`
/// closes a component: a component that is exactly `.` is dropped, and
/// the `/` is kept only behind a component. A `.` behind a `.` is dropped.
pub open spec fn scan_ref(input: Seq<char>) -> Seq<char>
    decreases input.len(),
{
    if input.len() == 0 {
        Seq::empty()
    } else {
        let head = scan_ref(input.drop_last());
        let c = ref_char(input.last());
        if c == '/' {
            let closed = drop_dot_component(head);
            if closed.len() == 0 || closed.last() == '/' {
                closed
            } else {
                closed.push('/')
            }
        } else if c == '.' {
            if head.len() > 0 && head.last() == '.' {
                head
            } else {
                head.push('.')
            }
        } else {
            head.push(c)
        }
    }
}

/// `s` without one trailing `/`.
pub open spec fn strip_slash(s: Seq<char>) -> Seq<char> {
    if s.len() > 0 && s.last() == '/' {
        s.drop_last()
    } else {
        s
    }
}

/// `s` without one trailing `.`.
pub open spec fn strip_dot(s: Seq<char>) -> Seq<char> {
    if s.len() > 0 && s.last() == '.' {
        s.drop_last()
    } else {
        s
    }
}

/// Whether `@{` stands in `s` at position `i`.
pub open spec fn at_brace_at(s: Seq<char>, i: int) -> bool {
    0 <= i && i + 1 < s.len() && s[i] == '@' && s[i + 1] == '{'
}

/// `s` with `__` in place of every `@{`.
pub open spec fn without_at_brace(s: Seq<char>) -> Seq<char> {
    Seq::new(
        s.len(),
        |i: int|
            if at_brace_at(s, i) || at_brace_at(s, i - 1) {
                '_'
            } else {
                s[i]
            },
    )
}

/// Whether `s` ends with `.lock`.
pub open spec fn ends_lock(s: Seq<char>) -> bool {
    s.len() >= 5 && s[s.len() - 5] == '.' && s[s.len() - 4] == 'l' && s[s.len() - 3] == 'o' && s[s.len()
        - 2] == 'c' && s[s.len() - 1] == 'k'
}

/// `s` with `_lock` in place of a trailing `.lock`.
pub open spec fn without_lock(s: Seq<char>) -> Seq<char> {
    if ends_lock(s) {
        s.update(s.len() - 5, '_')
    } else {
        s
    }
}

/// `_` in place of the name `@`.
pub open spec fn without_lone_at(s: Seq<char>) -> Seq<char> {
    if s == seq!['@'] {
        seq!['_']
    } else {
        s
    }
}

/// What is done to the scanned name: the last component goes if it is
/// exactly `.`, then a trailing `/`, then a trailing `.`; then `@{` becomes
/// `__`, a trailing `.lock` becomes `_lock`, and the name `@` becomes `_`.
pub open spec fn finish_ref(s: Seq<char>) -> Seq<char> {
    without_lone_at(
        without_lock(without_at_brace(strip_dot(strip_slash(drop_dot_component(s))))),
    )
}

/// The reference name made from an arbitrary string.
pub open spec fn normalized_ref(input: Seq<char>) -> Seq<char> {
    finish_ref(scan_ref(input))
}

/// What `scan_ref` yields: no forbidden character, no `/` at the start, no
/// `//`, no `..`, and no component before the last that is exactly `.`.
pub open spec fn is_scanned(s: Seq<char>) -> bool {
    &&& forall|i: int| 0 <= i < s.len() ==> !is_forbidden(#[trigger] s[i])
    &&& s.len() > 0 ==> s[0] != '/'
    &&& forall|i: int| 0 <= i < s.len() - 1 ==> !(#[trigger] s[i] == '/' && s[i + 1] == '/')
    &&& forall|i: int| 0 <= i < s.len() - 1 ==> !(#[trigger] s[i] == '.' && s[i + 1] == '.')
    &&& forall|i: int|
        0 <= i < s.len() - 1 ==> !(#[trigger] s[i] == '.' && s[i + 1] == '/' && (i == 0 || s[i
            - 1] == '/'))
}

/// A well-formed reference name: what `scan_ref` yields, and moreover no
/// `/` and no `.` at the end, no `@{`, no `.lock` at the end, and not the
/// name `@`.
pub open spec fn is_ref_name(s: Seq<char>) -> bool {
    &&& is_scanned(s)
    &&& s.len() > 0 ==> s.last() != '/' && s.last() != '.'
    &&& forall|i: int| 0 <= i < s.len() - 1 ==> !(#[trigger] s[i] == '@' && s[i + 1] == '{')
    &&& !ends_lock(s)
    &&& s != seq!['@']
}

/// What has the shape keeps it without its last character.
pub proof fn lemma_scanned_prefix(s: Seq<char>)
    requires
        is_scanned(s),
        s.len() > 0,
    ensures
        is_scanned(s.drop_last()),
{
    let h = s.drop_last();
    assert forall|i: int| 0 <= i < h.len() implies !is_forbidden(#[trigger] h[i]) by {
        assert(h[i] == s[i]);
    }
    if h.len() > 0 {
        assert(h[0] == s[0]);
    }
    assert forall|i: int| 0 <= i < h.len() - 1 implies !(#[trigger] h[i] == '/' && h[i + 1]
        == '/') by {
        assert(h[i] == s[i] && h[i + 1] == s[i + 1]);
    }
    assert forall|i: int| 0 <= i < h.len() - 1 implies !(#[trigger] h[i] == '.' && h[i + 1]
        == '.') by {
        assert(h[i] == s[i] && h[i + 1] == s[i + 1]);
    }
    assert forall|i: int| 0 <= i < h.len() - 1 implies !(#[trigger] h[i] == '.' && h[i + 1] == '/'
        && (i == 0 || h[i - 1] == '/')) by {
        assert(h[i] == s[i] && h[i + 1] == s[i + 1]);
        if i > 0 {
            assert(h[i - 1] == s[i - 1]);
        }
    }
}

/// What has the shape keeps it with one more character, where that
/// character is allowed behind it.
pub proof fn lemma_scanned_push(h: Seq<char>, c: char)
    requires
        is_scanned(h),
        !is_forbidden(c),
        c == '/' ==> h.len() > 0 && h.last() != '/' && !ends_dot_component(h),
        c == '.' ==> h.len() == 0 || h.last() != '.',
    ensures
        is_scanned(h.push(c)),
{
    let s = h.push(c);
    assert forall|i: int| 0 <= i < s.len() implies !is_forbidden(#[trigger] s[i]) by {
        if i < h.len() {
            assert(s[i] == h[i]);
        }
    }
    if h.len() > 0 {
        assert(s[0] == h[0]);
    }
    assert forall|i: int| 0 <= i < s.len() - 1 implies !(#[trigger] s[i] == '/' && s[i + 1]
        == '/') by {
        assert(s[i] == h[i]);
        if i + 1 < h.len() {
            assert(s[i + 1] == h[i + 1]);
        }
    }
    assert forall|i: int| 0 <= i < s.len() - 1 implies !(#[trigger] s[i] == '.' && s[i + 1]
        == '.') by {
        assert(s[i] == h[i]);
        if i + 1 < h.len() {
            assert(s[i + 1] == h[i + 1]);
        }
    }
    assert forall|i: int| 0 <= i < s.len() - 1 implies !(#[trigger] s[i] == '.' && s[i + 1] == '/'
        && (i == 0 || s[i - 1] == '/')) by {
        assert(s[i] == h[i]);
        if i > 0 {
            assert(s[i - 1] == h[i - 1]);
        }
        if i + 1 < h.len() {
            assert(s[i + 1] == h[i + 1]);
        }
    }
}

/// What scanning yields has the shape.
pub proof fn lemma_scan_ref_shape(input: Seq<char>)
    ensures
        is_scanned(scan_ref(input)),
    decreases input.len(),
{
    if input.len() > 0 {
        lemma_scan_ref_shape(input.drop_last());
        let head = scan_ref(input.drop_last());
        let c = ref_char(input.last());
        if c == '/' {
            let closed = drop_dot_component(head);
            if ends_dot_component(head) {
                lemma_scanned_prefix(head);
            }
            if closed.len() > 0 && closed.last() != '/' {
                if ends_dot_component(closed) {
                    // a dot behind the dot that was dropped, or a dot component before the last
                    if head.len() == closed.len() {
                    } else {
                        assert(head[closed.len() - 1] == closed.last());
                        assert(head[closed.len() as int] == '.');
                    }
                }
                lemma_scanned_push(closed, '/');
            }
        } else if c == '.' {
            if !(head.len() > 0 && head.last() == '.') {
                lemma_scanned_push(head, '.');
            }
        } else {
            lemma_scanned_push(head, c);
        }
    }
}

/// Scanning a name that already has the shape changes nothing.
pub proof fn lemma_scan_ref_fixed(s: Seq<char>)
    requires
        is_scanned(s),
    ensures
        scan_ref(s) == s,
    decreases s.len(),
{
    if s.len() > 0 {
        let head = s.drop_last();
        lemma_scanned_prefix(s);
        lemma_scan_ref_fixed(head);
        let c = s.last();
        let n = s.len() as int;
        assert(!is_forbidden(s[n - 1]));
        if head.len() > 0 {
            assert(head.last() == s[n - 2]);
            assert(!(s[n - 2] == '/' && s[n - 2 + 1] == '/'));
            assert(!(s[n - 2] == '.' && s[n - 2 + 1] == '.'));
            assert(!(s[n - 2] == '.' && s[n - 2 + 1] == '/' && (n - 2 == 0 || s[n - 2 - 1] == '/')));
            if head.len() > 1 {
                assert(head[head.len() - 2] == s[n - 3]);
            }
        } else {
            assert(s[0] != '/');
        }
        assert(head.push(c) =~= s);
    }
}

/// What the scanned name becomes is a well-formed reference name.
pub proof fn lemma_finish_ref_shape(s: Seq<char>)
    requires
        is_scanned(s),
    ensures
        is_ref_name(finish_ref(s)),
{
    let a = drop_dot_component(s);
    if ends_dot_component(s) {
        lemma_scanned_prefix(s);
    }
    let b = strip_slash(a);
    if a.len() > 0 && a.last() == '/' {
        lemma_scanned_prefix(a);
    }
    // `b` ends with no `/`, and its last component is not exactly `.`
    assert(b.len() > 0 ==> b.last() != '/') by {
        if a.len() > 0 && a.last() == '/' && b.len() > 0 {
            assert(b.last() == a[a.len() - 2]);
            assert(!(a[a.len() - 2] == '/' && a[a.len() - 2 + 1] == '/'));
        }
    }
    assert(!ends_dot_component(b)) by {
        if ends_dot_component(b) {
            if a.len() > 0 && a.last() == '/' {
                let i = a.len() - 2;
                assert(a[i] == b.last());
                assert(!(a[i] == '.' && a[i + 1] == '/' && (i == 0 || a[i - 1] == '/')));
                if i > 0 {
                    assert(a[i - 1] == b[b.len() - 2]);
                }
            } else if ends_dot_component(s) {
                let i = s.len() - 2;
                assert(s[i] == b.last());
                assert(s[i + 1] == '.');
                assert(!(s[i] == '.' && s[i + 1] == '.'));
            }
        }
    }
    let d = strip_dot(b);
    if b.len() > 0 && b.last() == '.' {
        lemma_scanned_prefix(b);
        if d.len() > 0 {
            assert(d.last() == b[b.len() - 2]);
            assert(!(b[b.len() - 2] == '.' && b[b.len() - 2 + 1] == '.'));
        }
    }
    assert(d.len() > 0 ==> d.last() != '/' && d.last() != '.');
    let e = without_at_brace(d);
    assert(is_scanned(e)) by {
        assert forall|i: int| 0 <= i < e.len() implies !is_forbidden(#[trigger] e[i]) by {
            assert(!is_forbidden(d[i]));
        }
        assert forall|i: int| 0 <= i < e.len() - 1 implies !(#[trigger] e[i] == '/' && e[i + 1]
            == '/') by {
            assert(!(d[i] == '/' && d[i + 1] == '/'));
        }
        assert forall|i: int| 0 <= i < e.len() - 1 implies !(#[trigger] e[i] == '.' && e[i + 1]
            == '.') by {
            assert(!(d[i] == '.' && d[i + 1] == '.'));
        }
        assert forall|i: int| 0 <= i < e.len() - 1 implies !(#[trigger] e[i] == '.' && e[i + 1]
            == '/' && (i == 0 || e[i - 1] == '/')) by {
            assert(!(d[i] == '.' && d[i + 1] == '/' && (i == 0 || d[i - 1] == '/')));
        }
    }
    assert(e.len() > 0 ==> e.last() != '/' && e.last() != '.');
    let f = without_lock(e);
    assert(is_scanned(f)) by {
        assert forall|i: int| 0 <= i < f.len() implies !is_forbidden(#[trigger] f[i]) by {
            assert(!is_forbidden(e[i]));
        }
        assert forall|i: int| 0 <= i < f.len() - 1 implies !(#[trigger] f[i] == '/' && f[i + 1]
            == '/') by {
            assert(!(e[i] == '/' && e[i + 1] == '/'));
        }
        assert forall|i: int| 0 <= i < f.len() - 1 implies !(#[trigger] f[i] == '.' && f[i + 1]
            == '.') by {
            assert(!(e[i] == '.' && e[i + 1] == '.'));
        }
        assert forall|i: int| 0 <= i < f.len() - 1 implies !(#[trigger] f[i] == '.' && f[i + 1]
            == '/' && (i == 0 || f[i - 1] == '/')) by {
            assert(!(e[i] == '.' && e[i + 1] == '/' && (i == 0 || e[i - 1] == '/')));
        }
    }
    assert forall|i: int| 0 <= i < f.len() - 1 implies !(#[trigger] f[i] == '@' && f[i + 1]
        == '{') by {
        if f[i] == '@' && f[i + 1] == '{' {
            assert(e[i] == '@' && e[i + 1] == '{');
            assert(d[i] == '@' && d[i + 1] == '{');
            assert(at_brace_at(d, i));
        }
    }
    let g = without_lone_at(f);
    if f == seq!['@'] {
        assert(g[0] == '_');
    }
}

/// What is done to the scanned name changes no well-formed reference name.
pub proof fn lemma_finish_ref_fixed(s: Seq<char>)
    requires
        is_ref_name(s),
    ensures
        finish_ref(s) == s,
{
    assert(without_at_brace(s) =~= s) by {
        assert forall|i: int| 0 <= i < s.len() implies without_at_brace(s)[i] == s[i] by {
            if at_brace_at(s, i) {
                assert(s[i] == '@' && s[i + 1] == '{');
            }
            if at_brace_at(s, i - 1) {
                assert(s[i - 1] == '@' && s[i - 1 + 1] == '{');
            }
        }
    }
}

/// Every result is a well-formed reference name: the forbidden characters
/// and sequences are gone, whatever the input held.
pub proof fn lemma_normalized_ref_is_ref_name(input: Seq<char>)
    ensures
        is_ref_name(normalized_ref(input)),
{
    lemma_scan_ref_shape(input);
    lemma_finish_ref_shape(scan_ref(input));
}

/// A well-formed reference name is its own normal form.
pub proof fn lemma_ref_name_is_normal(name: Seq<char>)
    requires
        is_ref_name(name),
    ensures
        normalized_ref(name) == name,
{
    lemma_scan_ref_fixed(name);
    lemma_finish_ref_fixed(name);
}

/// Normalizing is idempotent: a second application changes nothing.
pub proof fn lemma_normalize_idempotent(input: Seq<char>)
    ensures
        normalized_ref(normalized_ref(input)) == normalized_ref(input),
{
    lemma_normalized_ref_is_ref_name(input);
    lemma_ref_name_is_normal(normalized_ref(input));
}

/// A reference name holds none of the characters that a layer name must
/// not hold.
pub proof fn lemma_ref_name_chars(s: Seq<char>, i: int)
    requires
        is_ref_name(s),
        0 <= i < s.len(),
    ensures
        !is_control(s[i]),
        s[i] != ' ',
        s[i] != '~',
        s[i] != '^',
        s[i] != ':',
        s[i] != '?',
        s[i] != '*',
        s[i] != '[',
        s[i] != '\\',
{
    assert(!is_forbidden(s[i]));
}

fn char_is_forbidden(c: char) -> (b: bool)
    ensures
        b == is_forbidden(c),
{
    let n: u32 = c as u32;
    n < 0x20 || (0x7F <= n && n <= 0x9F) || c == ' ' || c == '~' || c == '^' || c == ':' || c
        == '?' || c == '*' || c == '[' || c == '\\'
}

fn has_dot_component(out: &Vec<char>) -> (b: bool)
    ensures
        b == ends_dot_component(out@),
{
    let n = out.len();
    n > 0 && out[n - 1] == '.' && (n == 1 || out[n - 2] == '/')
}

/// The scanned name.
fn scan_chars(chars: &Vec<char>) -> (out: Vec<char>)
    ensures
        out@ == scan_ref(chars@),
{
    let mut out: Vec<char> = Vec::new();
    let mut i: usize = 0;
    while i < chars.len()
        invariant
            i <= chars.len(),
            out@ == scan_ref(chars@.take(i as int)),
        decreases chars.len() - i,
    {
        let c = if char_is_forbidden(chars[i]) {
            '_'
        } else {
            chars[i]
        };
        assert(chars@.take(i + 1).drop_last() =~= chars@.take(i as int));
        assert(chars@.take(i + 1).last() == chars@[i as int]);
        if c == '/' {
            if has_dot_component(&out) {
                out.pop();
            }
            if out.len() > 0 && out[out.len() - 1] != '/' {
                out.push('/');
            }
        } else if c == '.' {
            if !(out.len() > 0 && out[out.len() - 1] == '.') {
                out.push('.');
            }
        } else {
            out.push(c);
        }
        i += 1;
    }
    assert(chars@.take(chars.len() as int) =~= chars@);
    out
}

/// The name with `__` in place of every `@{`.
fn replace_at_brace(name: &Vec<char>) -> (fixed: Vec<char>)
    ensures
        fixed@ == without_at_brace(name@),
{
    let mut fixed: Vec<char> = Vec::new();
    let mut j: usize = 0;
    while j < name.len()
        invariant
            j <= name.len(),
            fixed@ == without_at_brace(name@).take(j as int),
        decreases name.len() - j,
    {
        let c = name[j];
        let opens = c == '@' && j + 1 < name.len() && name[j + 1] == '{';
        let closes = c == '{' && j > 0 && name[j - 1] == '@';
        if opens || closes {
            fixed.push('_');
        } else {
            fixed.push(c);
        }
        assert(fixed@ =~= without_at_brace(name@).take(j + 1));
        j += 1;
    }
    assert(fixed@ =~= without_at_brace(name@));
    fixed
}

/// The name with `_lock` in place of a trailing `.lock`, and `_` in place of
/// the name `@`.
fn replace_lock_and_at(name: Vec<char>) -> (fixed: Vec<char>)
    ensures
        fixed@ == without_lone_at(without_lock(name@)),
{
    let mut fixed = name;
    let n = fixed.len();
    if n >= 5 && fixed[n - 5] == '.' && fixed[n - 4] == 'l' && fixed[n - 3] == 'o' && fixed[n - 2]
        == 'c' && fixed[n - 1] == 'k' {
        fixed.set(n - 5, '_');
    }
    assert(fixed@ =~= without_lock(name@));
    let ghost mid = fixed@;
    if fixed.len() == 1 && fixed[0] == '@' {
        assert(mid =~= seq!['@']);
        fixed.set(0, '_');
        assert(fixed@ =~= seq!['_']);
    } else {
        assert(fixed@ != seq!['@']) by {
            if fixed@ == seq!['@'] {
                assert(fixed@.len() == 1 && fixed@[0] == '@');
            }
        }
    }
    fixed
}

/// Makes a valid layer name from any string. Control characters, space and
/// `~ ^ : ? * [ \` become `_`; runs of `/` collapse and none stays at either
/// end; a component that is exactly `.` goes, and so does a `.` behind a `.`
/// and one at the end; `@{` becomes `__`, a trailing `.lock` becomes `_lock`,
/// and the name `@` becomes `_`.
pub fn normalize_git_ref(input: &str) -> (name: String)
    ensures
        name@ == normalized_ref(input@),
        is_ref_name(name@),
{
    let chars = chars_of(input);
    let mut out = scan_chars(&chars);
    if has_dot_component(&out) {
        out.pop();
    }
    if out.len() > 0 && out[out.len() - 1] == '/' {
        out.pop();
    }
    if out.len() > 0 && out[out.len() - 1] == '.' {
        out.pop();
    }
    let fixed = replace_lock_and_at(replace_at_brace(&out));
    proof {
        lemma_normalized_ref_is_ref_name(input@);
    }
    string_of(&fixed)
}

/// Which side a plain merge of file content prefers where both changed
/// the same lines.
#[derive(Debug, Clone, Copy, PartialEq, Eq, Structural)]
pub enum FileBias {
    /// The content of the incoming layer.
    Incoming,
    /// The content of the baseline.
    Baseline,
}

/// The bias of a strategy: the first two prefer the incoming layer, the
/// last resort keeps the baseline.
pub open spec fn bias_of(strategy: MergeStrategy) -> FileBias {
    match strategy {
        MergeStrategy::Custom => FileBias::Incoming,
        MergeStrategy::Theirs => FileBias::Incoming,
        MergeStrategy::Overwrite => FileBias::Baseline,
    }
}

/// The place of a strategy in the order of escalation.
pub open spec fn step_of(strategy: MergeStrategy) -> nat {
    match strategy {
        MergeStrategy::Custom => 0,
        MergeStrategy::Theirs => 1,
        MergeStrategy::Overwrite => 2,
    }
}

/// What follows a pass: nothing where it left no file unresolved, nothing
/// after the last resort, else the next strategy.
pub open spec fn escalation(strategy: MergeStrategy, unresolved: bool) -> Option<MergeStrategy> {
    if !unresolved {
        None
    } else {
        match strategy {
            MergeStrategy::Custom => Some(MergeStrategy::Theirs),
            MergeStrategy::Theirs => Some(MergeStrategy::Overwrite),
            MergeStrategy::Overwrite => None,
        }
    }
}

/// The strategy of the last pass, where `unresolved` says of each strategy
/// whether its pass leaves a file unresolved.
pub open spec fn last_strategy(
    start: MergeStrategy,
    unresolved: spec_fn(MergeStrategy) -> bool,
) -> MergeStrategy
    decreases 2 - step_of(start),
{
    match escalation(start, unresolved(start)) {
        Some(next) => last_strategy(next, unresolved),
        None => start,
    }
}

/// The number of passes that are made from `start` on.
pub open spec fn passes(start: MergeStrategy, unresolved: spec_fn(MergeStrategy) -> bool) -> nat
    decreases 2 - step_of(start),
{
    match escalation(start, unresolved(start)) {
        Some(next) => 1 + passes(next, unresolved),
        None => 1,
    }
}

/// Escalation ends: a layer is integrated in at most three passes, fewer
/// from a later strategy on, whatever the passes leave unresolved.
pub proof fn lemma_escalation_ends(
    start: MergeStrategy,
    unresolved: spec_fn(MergeStrategy) -> bool,
)
    ensures
        1 <= passes(start, unresolved) <= 3 - step_of(start),
        step_of(last_strategy(start, unresolved)) >= step_of(start),
    decreases 2 - step_of(start),
{
    match escalation(start, unresolved(start)) {
        Some(next) => {
            lemma_escalation_ends(next, unresolved);
        },
        None => {},
    }
}

/// Where neither of the first two strategies resolves every file, the last
/// pass is the last resort; and a last pass under another strategy left
/// nothing unresolved.
pub proof fn lemma_escalation_reaches_overwrite(
    start: MergeStrategy,
    unresolved: spec_fn(MergeStrategy) -> bool,
)
    ensures
        unresolved(MergeStrategy::Custom) && unresolved(MergeStrategy::Theirs)
            ==> last_strategy(start, unresolved) == MergeStrategy::Overwrite,
        last_strategy(start, unresolved) != MergeStrategy::Overwrite ==> !unresolved(
            last_strategy(start, unresolved),
        ),
    decreases 2 - step_of(start),
{
    match escalation(start, unresolved(start)) {
        Some(next) => {
            lemma_escalation_reaches_overwrite(next, unresolved);
        },
        None => {},
    }
}

/// The bias with which the content of files is merged under a strategy.
pub fn file_bias(strategy: MergeStrategy) -> (bias: FileBias)
    ensures
        bias == bias_of(strategy),
{
    match strategy {
        MergeStrategy::Custom => FileBias::Incoming,
        MergeStrategy::Theirs => FileBias::Incoming,
        MergeStrategy::Overwrite => FileBias::Baseline,
    }
}

/// The strategy of the next pass, if another pass is due.
pub fn next_strategy(strategy: MergeStrategy, unresolved: bool) -> (next: Option<MergeStrategy>)
    ensures
        next == escalation(strategy, unresolved),
        next is Some ==> step_of(next->0) == step_of(strategy) + 1,
{
    if !unresolved {
        None
    } else {
        match strategy {
            MergeStrategy::Custom => Some(MergeStrategy::Theirs),
            MergeStrategy::Theirs => Some(MergeStrategy::Overwrite),
            MergeStrategy::Overwrite => None,
        }
    }
}

} // verus!
