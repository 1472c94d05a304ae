//! Character-level helpers: whitespace, trimming and command-name matching.
//!
//! Everything here works on the `Seq<char>` view of a string, so that an
//! offset is always a character offset and never a byte offset.

use vstd::prelude::*;

verus! {

/// The characters that separate tokens: the Unicode `White_Space` set.
pub open spec fn is_space(c: char) -> bool {
    ||| '\u{9}' <= c <= '\u{d}'
    ||| c == ' '
    ||| c == '\u{85}'
    ||| c == '\u{a0}'
    ||| c == '\u{1680}'
    ||| '\u{2000}' <= c <= '\u{200a}'
    ||| c == '\u{2028}'
    ||| c == '\u{2029}'
    ||| c == '\u{202f}'
    ||| c == '\u{205f}'
    ||| c == '\u{3000}'
}

/// `s` without its leading whitespace.
pub open spec fn trim_start(s: Seq<char>) -> Seq<char>
    decreases s.len(),
{
    if s.len() > 0 && is_space(s[0]) {
        trim_start(s.skip(1))
    } else {
        s
    }
}

/// `s` without its trailing whitespace.
pub open spec fn trim_end(s: Seq<char>) -> Seq<char>
    decreases s.len(),
{
    if s.len() > 0 && is_space(s.last()) {
        trim_end(s.drop_last())
    } else {
        s
    }
}

/// `s` without the whitespace on either side.
pub open spec fn trim(s: Seq<char>) -> Seq<char> {
    trim_end(trim_start(s))
}

/// What is left of `text` once the command name `name` has been taken off its
/// front and the rest trimmed; `None` when `text` does not begin with `name`.
///
/// The match is literal and case-sensitive.
pub open spec fn remainder(text: Seq<char>, name: Seq<char>) -> Option<Seq<char>> {
    if name.is_prefix_of(text) {
        Some(trim(text.skip(name.len() as int)))
    } else {
        None
    }
}

/// Leading whitespace ends at `a`: everything before `a` is whitespace and
/// the character at `a`, if there is one, is not.
pub proof fn lemma_trim_start_at(s: Seq<char>, a: int)
    requires
        0 <= a <= s.len(),
        forall|j: int| 0 <= j < a ==> is_space(#[trigger] s[j]),
        a < s.len() ==> !is_space(s[a]),
    ensures
        trim_start(s) == s.skip(a),
    decreases a,
{
    if a == 0 {
        assert(s.skip(0) =~= s);
    } else {
        let t = s.skip(1);
        assert forall|j: int| 0 <= j < a - 1 implies is_space(#[trigger] t[j]) by {
            assert(t[j] == s[j + 1]);
        }
        lemma_trim_start_at(t, a - 1);
        assert(t.skip(a - 1) =~= s.skip(a));
    }
}

/// Trailing whitespace begins at `b`: everything from `b` on is whitespace
/// and the character before `b`, if there is one, is not.
pub proof fn lemma_trim_end_at(s: Seq<char>, b: int)
    requires
        0 <= b <= s.len(),
        forall|j: int| b <= j < s.len() ==> is_space(#[trigger] s[j]),
        0 < b ==> !is_space(s[b - 1]),
    ensures
        trim_end(s) == s.take(b),
    decreases s.len() - b,
{
    if b == s.len() {
        assert(s.take(b) =~= s);
    } else {
        let t = s.drop_last();
        lemma_trim_end_at(t, b);
        assert(t.take(b) =~= s.take(b));
    }
}

/// The trimmed text is the stretch between the first and the last character
/// that is not whitespace.
pub proof fn lemma_trim_between(s: Seq<char>, a: int, b: int)
    requires
        0 <= a <= b <= s.len(),
        forall|j: int| 0 <= j < a ==> is_space(#[trigger] s[j]),
        forall|j: int| b <= j < s.len() ==> is_space(#[trigger] s[j]),
        a < b ==> !is_space(s[a]) && !is_space(s[b - 1]),
    ensures
        trim(s) == s.subrange(a, b),
{
    if a == b {
        // Nothing but whitespace: the leading run reaches the end.
        lemma_trim_start_at(s, s.len() as int);
        assert(s.skip(s.len() as int) =~= Seq::<char>::empty());
        assert(s.subrange(a, b) =~= Seq::<char>::empty());
    } else {
        lemma_trim_start_at(s, a);
        let t = s.skip(a);
        assert forall|j: int| b - a <= j < t.len() implies is_space(#[trigger] t[j]) by {
            assert(t[j] == s[j + a]);
        }
        assert(t[b - a - 1] == s[b - 1]);
        lemma_trim_end_at(t, b - a);
        assert(t.take(b - a) =~= s.subrange(a, b));
    }
}

/// Trimming never leaves whitespace at either end.
pub proof fn lemma_trim_is_tight(s: Seq<char>)
    ensures
        trim(s).len() > 0 ==> !is_space(trim(s)[0]) && !is_space(trim(s).last()),
        trim(s).len() <= s.len(),
        trim(trim(s)) == trim(s),
{
    lemma_trim_start_shape(s);
    let t = trim_start(s);
    lemma_trim_end_shape(t);
    let u = trim_end(t);
    if u.len() > 0 {
        assert(u[0] == t[0]);
        lemma_trim_between(u, 0, u.len() as int);
        assert(u.subrange(0, u.len() as int) =~= u);
    } else {
        lemma_trim_between(u, 0, 0);
        assert(u.subrange(0, 0) =~= u);
    }
}

/// `trim_start` drops a prefix made of whitespace only and stops at the first
/// character that is not.
pub proof fn lemma_trim_start_shape(s: Seq<char>)
    ensures
        trim_start(s).len() <= s.len(),
        trim_start(s) == s.skip(s.len() - trim_start(s).len()),
        forall|j: int| 0 <= j < s.len() - trim_start(s).len() ==> is_space(#[trigger] s[j]),
        trim_start(s).len() > 0 ==> !is_space(trim_start(s)[0]),
    decreases s.len(),
{
    if s.len() > 0 && is_space(s[0]) {
        let t = s.skip(1);
        lemma_trim_start_shape(t);
        let d = t.len() - trim_start(t).len();
        assert(t.skip(d) =~= s.skip(d + 1));
        assert forall|j: int| 0 <= j < d + 1 implies is_space(#[trigger] s[j]) by {
            if j > 0 {
                assert(s[j] == t[j - 1]);
            }
        }
    } else {
        assert(s.skip(0) =~= s);
    }
}

/// `trim_end` keeps a prefix, drops whitespace only, and stops at the last
/// character that is not whitespace.
pub proof fn lemma_trim_end_shape(s: Seq<char>)
    ensures
        trim_end(s).len() <= s.len(),
        trim_end(s) == s.take(trim_end(s).len() as int),
        forall|j: int| trim_end(s).len() <= j < s.len() ==> is_space(#[trigger] s[j]),
        trim_end(s).len() > 0 ==> !is_space(trim_end(s).last()),
    decreases s.len(),
{
    if s.len() > 0 && is_space(s.last()) {
        let t = s.drop_last();
        lemma_trim_end_shape(t);
        let k = trim_end(t).len() as int;
        assert(t.take(k) =~= s.take(k));
        assert forall|j: int| k <= j < s.len() implies is_space(#[trigger] s[j]) by {
            if j < t.len() {
                assert(s[j] == t[j]);
            }
        }
    } else {
        assert(s.take(s.len() as int) =~= s);
    }
}

/// Whether `c` separates tokens.
pub fn is_space_char(c: char) -> (r: bool)
    ensures
        r == is_space(c),
{
    ('\u{9}' <= c && c <= '\u{d}') || c == ' ' || c == '\u{85}' || c == '\u{a0}' || c
        == '\u{1680}' || ('\u{2000}' <= c && c <= '\u{200a}') || c == '\u{2028}' || c
        == '\u{2029}' || c == '\u{202f}' || c == '\u{205f}' || c == '\u{3000}'
}

/// The characters of `s`, in order.
pub fn chars_of(s: &str) -> (v: Vec<char>)
    ensures
        v@ == s@,
{
    let mut v: Vec<char> = Vec::new();
    for c in it: s.chars()
        invariant
            v@ == it.seq().take(it.index() as int),
    {
        v.push(c);
    }
    v
}

/// Matches `text` against the command name `name`.
///
/// Returns the trimmed rest of `text` when `text` begins with `name`, and
/// `None` otherwise.
pub fn strip_command<'a>(text: &'a str, name: &str) -> (r: Option<&'a str>)
    ensures
        match r {
            Some(rest) => remainder(text@, name@) == Some(rest@),
            None => remainder(text@, name@) is None,
        },
{
    let t = chars_of(text);
    let p = chars_of(name);
    if p.len() > t.len() {
        return None;
    }
    let mut i: usize = 0;
    while i < p.len()
        invariant
            t@ == text@,
            p@ == name@,
            i <= p.len() <= t.len(),
            forall|j: int| 0 <= j < i ==> t@[j] == p@[j],
        decreases p.len() - i,
    {
        if t[i] != p[i] {
            assert(!p@.is_prefix_of(t@)) by {
                if p@.is_prefix_of(t@) {
                    assert(p@[i as int] == t@.subrange(0, p@.len() as int)[i as int]);
                }
            }
            return None;
        }
        i += 1;
    }
    assert(p@ =~= t@.take(p.len() as int));
    let ghost s = t@.skip(p.len() as int);
    let mut a: usize = p.len();
    while a < t.len() && is_space_char(t[a])
        invariant
            p.len() <= a <= t.len(),
            forall|j: int| p.len() <= j < a ==> is_space(#[trigger] t@[j]),
        decreases t.len() - a,
    {
        a += 1;
    }
    let mut b: usize = t.len();
    while b > a && is_space_char(t[b - 1])
        invariant
            a <= b <= t.len(),
            forall|j: int| b <= j < t.len() ==> is_space(#[trigger] t@[j]),
        decreases b,
    {
        b -= 1;
    }
    proof {
        let n = p.len() as int;
        assert forall|j: int| 0 <= j < a - n implies is_space(#[trigger] s[j]) by {
            assert(s[j] == t@[j + n]);
        }
        assert forall|j: int| b - n <= j < s.len() implies is_space(#[trigger] s[j]) by {
            assert(s[j] == t@[j + n]);
        }
        if a < b {
            assert(s[a - n] == t@[a as int]);
            assert(s[b - n - 1] == t@[b - 1]);
        }
        lemma_trim_between(s, a - n, b - n);
        assert(s.subrange(a - n, b - n) =~= t@.subrange(a as int, b as int));
    }
    Some(text.substring_char(a, b))
}

} // verus!
