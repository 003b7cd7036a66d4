//! Facts about trimming, skipping blanks and searching, as the laws of the
//! formats need them.

use crate::text::{
    contains_text, first_index_of, is_blank, is_whitespace, occurs_at, skip_blanks, spaces, trim,
    trim_end, trim_start,
};
use vstd::prelude::*;

verus! {

/// Neither end of `s` is whitespace.
pub open spec fn is_trimmed(s: Seq<char>) -> bool {
    s.len() == 0 || (!is_whitespace(s[0]) && !is_whitespace(s.last()))
}

/// `s` does not start with a blank.
pub open spec fn starts_firm(s: Seq<char>) -> bool {
    s.len() == 0 || !is_blank(s[0])
}

/// What `trim_start` leaves is the end of the text, and starts with no
/// whitespace.
pub proof fn lemma_trim_start(s: Seq<char>)
    ensures
        trim_start(s).len() <= s.len(),
        trim_start(s) == s.skip(s.len() - trim_start(s).len()),
        trim_start(s).len() > 0 ==> !is_whitespace(trim_start(s)[0]),
    decreases s.len(),
{
    if s.len() > 0 && is_whitespace(s[0]) {
        let t = s.skip(1);
        lemma_trim_start(t);
        assert(t.skip(t.len() - trim_start(t).len()) =~= s.skip(s.len() - trim_start(t).len()));
    } else {
        assert(s.skip(0) =~= s);
    }
}

/// What `trim_end` leaves is the start of the text, and ends with no
/// whitespace.
pub proof fn lemma_trim_end(s: Seq<char>)
    ensures
        trim_end(s).len() <= s.len(),
        trim_end(s) == s.take(trim_end(s).len() as int),
        trim_end(s).len() > 0 ==> !is_whitespace(trim_end(s).last()),
    decreases s.len(),
{
    if s.len() > 0 && is_whitespace(s.last()) {
        let t = s.drop_last();
        lemma_trim_end(t);
        assert(t.take(trim_end(t).len() as int) =~= s.take(trim_end(t).len() as int));
    } else {
        assert(s.take(s.len() as int) =~= s);
    }
}

/// A trimmed text has no whitespace at either end.
pub proof fn lemma_trim_is_trimmed(s: Seq<char>)
    ensures
        is_trimmed(trim(s)),
{
    let y = trim_start(s);
    lemma_trim_start(s);
    lemma_trim_end(y);
    let t = trim_end(y);
    if t.len() > 0 {
        assert(t[0] == y[0]);
    }
}

/// What `skip_blanks` leaves is the end of the text, and starts with no
/// blank.
pub proof fn lemma_skip_blanks(s: Seq<char>)
    ensures
        skip_blanks(s).len() <= s.len(),
        skip_blanks(s) == s.skip(s.len() - skip_blanks(s).len()),
        starts_firm(skip_blanks(s)),
    decreases s.len(),
{
    if s.len() > 0 && is_blank(s[0]) {
        let t = s.skip(1);
        lemma_skip_blanks(t);
        assert(t.skip(t.len() - skip_blanks(t).len()) =~= s.skip(s.len() - skip_blanks(t).len()));
    } else {
        assert(s.skip(0) =~= s);
    }
}

/// Blanks are whitespace: skipping them first changes nothing for
/// `trim_start`.
pub proof fn lemma_trim_start_after_blanks(s: Seq<char>)
    ensures
        trim_start(skip_blanks(s)) == trim_start(s),
    decreases s.len(),
{
    if s.len() > 0 && is_blank(s[0]) {
        lemma_trim_start_after_blanks(s.skip(1));
    }
}

/// Where something is left of `a`, what follows `a` is untouched.
pub proof fn lemma_trim_start_append(a: Seq<char>, b: Seq<char>)
    requires
        trim_start(a).len() > 0,
    ensures
        trim_start(a + b) == trim_start(a) + b,
    decreases a.len(),
{
    if a.len() > 0 && is_whitespace(a[0]) {
        lemma_trim_start_append(a.skip(1), b);
        assert((a + b).skip(1) =~= a.skip(1) + b);
        assert((a + b)[0] == a[0]);
    } else {
        assert((a + b)[0] == a[0]);
    }
}

/// Leading spaces are skipped.
pub proof fn lemma_skip_leading_spaces(n: nat, s: Seq<char>)
    ensures
        skip_blanks(spaces(n) + s) == skip_blanks(s),
        trim_start(spaces(n) + s) == trim_start(s),
    decreases n,
{
    if n == 0 {
        assert(spaces(0) + s =~= s);
    } else {
        let line = spaces(n) + s;
        assert(line[0] == ' ');
        assert(line.skip(1) =~= spaces((n - 1) as nat) + s);
        lemma_skip_leading_spaces((n - 1) as nat, s);
    }
}

/// A trimmed text with one space behind it trims to itself.
pub proof fn lemma_trim_with_space(s: Seq<char>)
    requires
        is_trimmed(s),
    ensures
        trim(s + seq![' ']) == s,
{
    let t = s + seq![' '];
    if s.len() == 0 {
        assert(t.skip(1) =~= Seq::<char>::empty());
        assert(trim_start(t) == trim_start(t.skip(1)));
        assert(trim_start(t) =~= Seq::<char>::empty());
    } else {
        assert(t[0] == s[0]);
        assert(trim_start(t) == t);
        assert(t.drop_last() =~= s);
        assert(trim_end(t) == trim_end(s));
        assert(trim_end(s) == s);
    }
}

/// An occurrence in the end of a text is one in the text.
pub proof fn lemma_contains_skip(s: Seq<char>, k: int, pat: Seq<char>)
    requires
        0 <= k <= s.len(),
        contains_text(s.skip(k), pat),
    ensures
        contains_text(s, pat),
{
    let i = choose|i: int| occurs_at(s.skip(k), pat, i);
    assert(s.skip(k).subrange(i, i + pat.len()) =~= s.subrange(i + k, i + k + pat.len()));
    assert(occurs_at(s, pat, i + k));
}

/// An occurrence in the start of a text is one in the text.
pub proof fn lemma_contains_take(s: Seq<char>, k: int, pat: Seq<char>)
    requires
        0 <= k <= s.len(),
        contains_text(s.take(k), pat),
    ensures
        contains_text(s, pat),
{
    let i = choose|i: int| occurs_at(s.take(k), pat, i);
    assert(s.take(k).subrange(i, i + pat.len()) =~= s.subrange(i, i + pat.len()));
    assert(occurs_at(s, pat, i));
}

/// An occurrence in what trimming leaves is one in the text.
pub proof fn lemma_contains_trim(s: Seq<char>, pat: Seq<char>)
    requires
        contains_text(trim(s), pat),
    ensures
        contains_text(s, pat),
{
    let y = trim_start(s);
    lemma_trim_start(s);
    lemma_trim_end(y);
    lemma_contains_take(y, trim_end(y).len() as int, pat);
    lemma_contains_skip(s, s.len() - y.len(), pat);
}

/// An occurrence behind the blanks is one in the text.
pub proof fn lemma_contains_skip_blanks(s: Seq<char>, pat: Seq<char>)
    requires
        contains_text(skip_blanks(s), pat),
    ensures
        contains_text(s, pat),
{
    lemma_skip_blanks(s);
    lemma_contains_skip(s, s.len() - skip_blanks(s).len(), pat);
}

/// A text that trims to `pat` holds `pat`.
pub proof fn lemma_trim_occurs(s: Seq<char>, pat: Seq<char>)
    requires
        trim(s) == pat,
    ensures
        contains_text(s, pat),
{
    assert(pat.subrange(0, pat.len() as int) =~= pat);
    assert(occurs_at(trim(s), pat, 0));
    lemma_contains_trim(s, pat);
}

/// A character of the text is an occurrence of the one-character pattern.
pub proof fn lemma_char_occurs(s: Seq<char>, i: int)
    requires
        0 <= i < s.len(),
    ensures
        contains_text(s, seq![s[i]]),
{
    assert(s.subrange(i, i + 1) =~= seq![s[i]]);
    assert(occurs_at(s, seq![s[i]], i));
}

/// Where the one-character pattern does not occur, no position holds the
/// character.
pub proof fn lemma_char_absent(s: Seq<char>, c: char)
    requires
        !contains_text(s, seq![c]),
    ensures
        forall|i: int| 0 <= i < s.len() ==> s[i] != c,
{
    assert forall|i: int| 0 <= i < s.len() implies s[i] != c by {
        if s[i] == c {
            lemma_char_occurs(s, i);
        }
    }
}

/// A pattern does not reach across a separator that shares no character
/// with it.
pub proof fn lemma_absent_across(a: Seq<char>, sep: Seq<char>, b: Seq<char>, pat: Seq<char>)
    requires
        pat.len() > 0,
        sep.len() > 0,
        !contains_text(a, pat),
        !contains_text(b, pat),
        forall|i: int, j: int| 0 <= i < sep.len() && 0 <= j < pat.len() ==> sep[i] != pat[j],
    ensures
        !contains_text(a + sep + b, pat),
{
    let s = a + sep + b;
    assert forall|i: int| !occurs_at(s, pat, i) by {
        if occurs_at(s, pat, i) {
            let w = s.subrange(i, i + pat.len());
            if i + pat.len() <= a.len() {
                assert(a.subrange(i, i + pat.len()) =~= w);
                assert(occurs_at(a, pat, i));
            } else if i >= a.len() + sep.len() {
                let k = i - a.len() - sep.len();
                assert(b.subrange(k, k + pat.len()) =~= w);
                assert(occurs_at(b, pat, k));
            } else {
                let j = if i >= a.len() {
                    i
                } else {
                    a.len() as int
                };
                assert(w[j - i] == s[j]);
                assert(s[j] == sep[j - a.len()]);
                assert(w[j - i] == pat[j - i]);
            }
        }
    }
}

/// The first `c` of a text: where it stands behind a part that holds none.
pub proof fn lemma_first_index_after(a: Seq<char>, c: char, b: Seq<char>)
    requires
        forall|i: int| 0 <= i < a.len() ==> a[i] != c,
    ensures
        first_index_of(a + seq![c] + b, c) == a.len(),
{
    let s = a + seq![c] + b;
    assert(s[a.len() as int] == c);
    assert forall|j: int| 0 <= j < a.len() implies s[j] != c by {
        assert(s[j] == a[j]);
    }
    crate::text::lemma_first_index_is(s, c, a.len() as int);
}

} // verus!
