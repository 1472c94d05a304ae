//! Splitting the text after a command name into parameters and a body.
//!
//! The text is a run of whitespace-separated tokens. The leading tokens that
//! hold a `=` are parameters, `key=value`, split at the first `=`. The first
//! token without a `=` begins the body, which runs unchanged to the end of
//! the text.

use crate::params::Params;
use crate::text::{chars_of, is_space, is_space_char, lemma_trim_start_at, lemma_trim_start_shape, trim_start};
use vstd::prelude::*;

verus! {

/// What a text parses to.
pub struct Parsed {
    /// The value of each parameter key.
    pub params: Map<Seq<char>, Seq<char>>,
    /// The free-form text after the parameters.
    pub body: Seq<char>,
}

/// The length of the token at the front of `s`: the characters up to the
/// first whitespace.
pub open spec fn word_len(s: Seq<char>) -> nat
    decreases s.len(),
{
    if s.len() > 0 && !is_space(s[0]) {
        1 + word_len(s.skip(1))
    } else {
        0
    }
}

/// The position of the first `=` in `token`, or the length of `token` if it
/// holds none.
pub open spec fn find_eq(token: Seq<char>) -> nat
    decreases token.len(),
{
    if token.len() > 0 && token[0] != '=' {
        1 + find_eq(token.skip(1))
    } else {
        0
    }
}

/// A token as a parameter: the key before its first `=` and the value after
/// it. `None` for a token without a `=`.
pub open spec fn split_pair(token: Seq<char>) -> Option<(Seq<char>, Seq<char>)> {
    let k = find_eq(token) as int;
    if k < token.len() {
        Some((token.take(k), token.skip(k + 1)))
    } else {
        None
    }
}

/// The parameters `later`, preceded by the pair `key`, `value`: the pair
/// counts only where no later one has the same key.
pub open spec fn preceded_by(later: Parsed, key: Seq<char>, value: Seq<char>) -> Parsed {
    Parsed { params: Map::empty().insert(key, value).union_prefer_right(later.params), body: later.body }
}

/// The parameters and the body of `s`.
pub open spec fn parse(s: Seq<char>) -> Parsed
    decreases s.len(),
{
    let t = trim_start(s);
    if t.len() == 0 {
        Parsed { params: Map::empty(), body: Seq::empty() }
    } else {
        let n = word_len(t) as int;
        match split_pair(t.take(n)) {
            None => Parsed { params: Map::empty(), body: t },
            Some((key, value)) => {
                proof {
                    lemma_trim_start_shape(s);
                    lemma_word_len_shape(t);
                }
                preceded_by(parse(t.skip(n)), key, value)
            },
        }
    }
}

/// The token at the front of `s` ends at `n`: no whitespace before `n`, and
/// whitespace or the end of the text at `n`.
pub proof fn lemma_word_len_at(s: Seq<char>, n: int)
    requires
        0 <= n <= s.len(),
        forall|j: int| 0 <= j < n ==> !is_space(#[trigger] s[j]),
        n < s.len() ==> is_space(s[n]),
    ensures
        word_len(s) == n,
    decreases n,
{
    if n > 0 {
        let t = s.skip(1);
        assert forall|j: int| 0 <= j < n - 1 implies !is_space(#[trigger] t[j]) by {
            assert(t[j] == s[j + 1]);
        }
        lemma_word_len_at(t, n - 1);
    }
}

/// The first `=` of `token` is at `k`: none before `k`, and a `=` or the end
/// of the token at `k`.
pub proof fn lemma_find_eq_at(token: Seq<char>, k: int)
    requires
        0 <= k <= token.len(),
        forall|j: int| 0 <= j < k ==> #[trigger] token[j] != '=',
        k < token.len() ==> token[k] == '=',
    ensures
        find_eq(token) == k,
    decreases k,
{
    if k > 0 {
        let t = token.skip(1);
        assert forall|j: int| 0 <= j < k - 1 implies #[trigger] t[j] != '=' by {
            assert(t[j] == token[j + 1]);
        }
        lemma_find_eq_at(t, k - 1);
    }
}

/// The token at the front of a text is made of characters that are not
/// whitespace, and is not empty where the text begins with such a character.
pub proof fn lemma_word_len_shape(s: Seq<char>)
    ensures
        word_len(s) <= s.len(),
        forall|j: int| 0 <= j < word_len(s) ==> !is_space(#[trigger] s[j]),
        word_len(s) < s.len() ==> is_space(s[word_len(s) as int]),
        s.len() > 0 && !is_space(s[0]) ==> word_len(s) > 0,
    decreases s.len(),
{
    if s.len() > 0 && !is_space(s[0]) {
        let t = s.skip(1);
        lemma_word_len_shape(t);
        assert forall|j: int| 0 <= j < word_len(s) implies !is_space(#[trigger] s[j]) by {
            if j > 0 {
                assert(s[j] == t[j - 1]);
            }
        }
        if word_len(s) < s.len() {
            assert(s[word_len(s) as int] == t[word_len(t) as int]);
        }
    }
}

/// `find_eq` stops at the first `=`.
pub proof fn lemma_find_eq_shape(token: Seq<char>)
    ensures
        find_eq(token) <= token.len(),
        forall|j: int| 0 <= j < find_eq(token) ==> #[trigger] token[j] != '=',
        find_eq(token) < token.len() ==> token[find_eq(token) as int] == '=',
    decreases token.len(),
{
    if token.len() > 0 && token[0] != '=' {
        let t = token.skip(1);
        lemma_find_eq_shape(t);
        assert forall|j: int| 0 <= j < find_eq(token) implies #[trigger] token[j] != '=' by {
            if j > 0 {
                assert(token[j] == t[j - 1]);
            }
        }
        if find_eq(token) < token.len() {
            assert(token[find_eq(token) as int] == t[find_eq(t) as int]);
        }
    }
}

/// A text of whitespace only has no parameters and no body.
pub proof fn lemma_parse_blank(s: Seq<char>)
    requires
        forall|j: int| 0 <= j < s.len() ==> is_space(#[trigger] s[j]),
    ensures
        parse(s) == (Parsed { params: Map::empty(), body: Seq::empty() }),
{
    lemma_trim_start_at(s, s.len() as int);
}

/// How `parse` reads a text whose first token lies between `a` and `b`.
pub proof fn lemma_parse_token(s: Seq<char>, a: int, b: int)
    requires
        0 <= a < b <= s.len(),
        forall|j: int| 0 <= j < a ==> is_space(#[trigger] s[j]),
        forall|j: int| a <= j < b ==> !is_space(#[trigger] s[j]),
        b < s.len() ==> is_space(s[b]),
    ensures
        parse(s) == match split_pair(s.subrange(a, b)) {
            None => Parsed { params: Map::empty(), body: s.skip(a) },
            Some((key, value)) => preceded_by(parse(s.skip(b)), key, value),
        },
{
    lemma_trim_start_at(s, a);
    let t = s.skip(a);
    assert forall|j: int| 0 <= j < b - a implies !is_space(#[trigger] t[j]) by {
        assert(t[j] == s[j + a]);
    }
    if b < s.len() {
        assert(t[b - a] == s[b]);
    }
    lemma_word_len_at(t, b - a);
    assert(t.take(b - a) =~= s.subrange(a, b));
    assert(t.skip(b - a) =~= s.skip(b));
}

/// The body is the tail of the text: nothing in it is rewritten.
pub proof fn lemma_body_is_suffix(s: Seq<char>)
    ensures
        parse(s).body.is_suffix_of(s),
    decreases s.len(),
{
    lemma_trim_start_shape(s);
    let t = trim_start(s);
    let d = s.len() - t.len();
    if t.len() == 0 {
        assert(Seq::<char>::empty() =~= s.subrange(s.len() as int, s.len() as int));
    } else {
        let n = word_len(t) as int;
        lemma_word_len_shape(t);
        match split_pair(t.take(n)) {
            None => {
                assert(t =~= s.subrange(d, s.len() as int));
            },
            Some((key, value)) => {
                let u = t.skip(n);
                lemma_body_is_suffix(u);
                let body = parse(u).body;
                assert(body =~= s.subrange(s.len() - body.len(), s.len() as int)) by {
                    assert(u =~= s.skip(d + n));
                    assert(body =~= u.subrange(u.len() - body.len(), u.len() as int));
                }
            },
        }
    }
}

/// A body that is not empty begins with a token that holds no `=`.
pub proof fn lemma_body_begins_with_word(s: Seq<char>)
    ensures
        parse(s).body.len() > 0 ==> {
            let body = parse(s).body;
            &&& !is_space(body[0])
            &&& split_pair(body.take(word_len(body) as int)) is None
        },
    decreases s.len(),
{
    lemma_trim_start_shape(s);
    let t = trim_start(s);
    if t.len() > 0 {
        let n = word_len(t) as int;
        lemma_word_len_shape(t);
        match split_pair(t.take(n)) {
            None => {},
            Some((key, value)) => {
                lemma_body_begins_with_word(t.skip(n));
            },
        }
    }
}

/// There are finitely many parameters; no key holds whitespace or a `=`, and
/// no value holds whitespace.
pub proof fn lemma_params_shape(s: Seq<char>)
    ensures
        parse(s).params.dom().finite(),
        forall|k: Seq<char>| #[trigger]
            parse(s).params.contains_key(k) ==> {
                &&& forall|j: int| 0 <= j < k.len() ==> !is_space(#[trigger] k[j]) && k[j] != '='
                &&& forall|j: int|
                    0 <= j < parse(s).params[k].len() ==> !is_space(#[trigger] parse(s).params[k][j])
            },
    decreases s.len(),
{
    lemma_trim_start_shape(s);
    let t = trim_start(s);
    if t.len() > 0 {
        let n = word_len(t) as int;
        lemma_word_len_shape(t);
        let token = t.take(n);
        match split_pair(token) {
            None => {},
            Some((key, value)) => {
                let rest = parse(t.skip(n));
                lemma_params_shape(t.skip(n));
                lemma_find_eq_shape(token);
                let first = Map::<Seq<char>, Seq<char>>::empty().insert(key, value);
                assert(first.union_prefer_right(rest.params).dom() =~= rest.params.dom().insert(key));
                assert forall|k: Seq<char>| #[trigger]
                    parse(s).params.contains_key(k) implies {
                    &&& forall|j: int| 0 <= j < k.len() ==> !is_space(#[trigger] k[j]) && k[j] != '='
                    &&& forall|j: int|
                        0 <= j < parse(s).params[k].len() ==> !is_space(
                            #[trigger] parse(s).params[k][j],
                        )
                } by {
                    if !rest.params.contains_key(k) {
                        assert(k == key);
                        assert forall|j: int| 0 <= j < key.len() implies !is_space(
                            #[trigger] key[j],
                        ) && key[j] != '=' by {
                            assert(key[j] == token[j]);
                            assert(token[j] == t[j]);
                        }
                        assert forall|j: int| 0 <= j < value.len() implies !is_space(
                            #[trigger] value[j],
                        ) by {
                            assert(value[j] == token[j + key.len() + 1]);
                            assert(token[j + key.len() + 1] == t[j + key.len() + 1]);
                        }
                    }
                }
            },
        }
    }
}

/// Splits `remainder` into its parameters and its body.
///
/// The body borrows from `remainder`: it is the text from the first token
/// without a `=` to the end, and empty if every token is a parameter.
pub fn tokenize<'a>(remainder: &'a str) -> (r: (Params, &'a str))
    ensures
        r.0@ == parse(remainder@).params,
        r.1@ == parse(remainder@).body,
{
    let chars = chars_of(remainder);
    let n = chars.len();
    let ghost s = chars@;
    let mut params = Params::new();
    let mut i: usize = 0;
    assert(s.skip(0) =~= s);
    assert(params@.union_prefer_right(parse(s).params) =~= parse(s).params);
    loop
        invariant
            s == remainder@,
            s == chars@,
            n == s.len(),
            i <= n,
            parse(s).body == parse(s.skip(i as int)).body,
            parse(s).params == params@.union_prefer_right(parse(s.skip(i as int)).params),
        decreases n - i,
    {
        let ghost u = s.skip(i as int);
        let mut a: usize = i;
        while a < n && is_space_char(chars[a])
            invariant
                s == chars@,
                n == s.len(),
                i <= a <= n,
                forall|j: int| i <= j < a ==> is_space(#[trigger] s[j]),
            decreases n - a,
        {
            a += 1;
        }
        if a == n {
            proof {
                assert forall|j: int| 0 <= j < u.len() implies is_space(#[trigger] u[j]) by {
                    assert(u[j] == s[j + i]);
                }
                lemma_parse_blank(u);
                assert(params@.union_prefer_right(Map::empty()) =~= params@);
            }
            return (params, remainder.substring_char(n, n));
        }
        let mut b: usize = a;
        let mut k: usize = a;
        while b < n && !is_space_char(chars[b])
            invariant
                s == chars@,
                n == s.len(),
                a <= k <= b <= n,
                forall|j: int| a <= j < b ==> !is_space(#[trigger] s[j]),
                forall|j: int| a <= j < k ==> #[trigger] s[j] != '=',
                k < b ==> s[k as int] == '=',
            decreases n - b,
        {
            if k == b && chars[b] != '=' {
                k += 1;
            }
            b += 1;
        }
        proof {
            assert forall|j: int| 0 <= j < a - i implies is_space(#[trigger] u[j]) by {
                assert(u[j] == s[j + i]);
            }
            assert forall|j: int| a - i <= j < b - i implies !is_space(#[trigger] u[j]) by {
                assert(u[j] == s[j + i]);
            }
            if b < n {
                assert(u[b - i] == s[b as int]);
            }
            lemma_parse_token(u, a - i, b - i);
            let token = s.subrange(a as int, b as int);
            assert(u.subrange(a - i, b - i) =~= token);
            assert(u.skip(a - i) =~= s.skip(a as int));
            assert(u.skip(b - i) =~= s.skip(b as int));
            assert forall|j: int| 0 <= j < k - a implies #[trigger] token[j] != '=' by {
                assert(token[j] == s[j + a]);
            }
            if k < b {
                assert(token[k - a] == s[k as int]);
            }
            lemma_find_eq_at(token, k - a);
            assert(token.take(k - a) =~= s.subrange(a as int, k as int));
            if k < b {
                assert(token.skip(k - a + 1) =~= s.subrange(k + 1, b as int));
            }
        }
        if k == b {
            proof {
                assert(params@.union_prefer_right(Map::empty()) =~= params@);
                assert(s.subrange(a as int, n as int) =~= s.skip(a as int));
            }
            return (params, remainder.substring_char(a, n));
        }
        let key = remainder.substring_char(a, k).to_owned();
        let value = remainder.substring_char(k + 1, b).to_owned();
        proof {
            let later = parse(s.skip(b as int)).params;
            let first = Map::<Seq<char>, Seq<char>>::empty().insert(key@, value@);
            assert(params@.union_prefer_right(first.union_prefer_right(later)) =~= params@.insert(
                key@,
                value@,
            ).union_prefer_right(later));
        }
        params = params.with(key, value);
        i = b;
    }
}

} // verus!
