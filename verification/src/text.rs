//! Character-level scanning over descriptor text: whitespace, digits,
//! case-insensitive keyword comparison, and whitespace tokenization.

use vstd::assert_seqs_equal;
use vstd::prelude::*;

verus! {

/// The whitespace characters a descriptor line may contain.
pub open spec fn is_space_char(c: char) -> bool {
    c == ' ' || c == '\t' || c == '\r' || c == '\n' || c == '\u{b}' || c == '\u{c}'
}

pub open spec fn is_digit_char(c: char) -> bool {
    '0' <= c && c <= '9'
}

/// Numeric value of a decimal digit character.
pub open spec fn digit_val(c: char) -> int {
    c as int - 48
}

/// Upper-casing of a single character, ASCII letters only.
pub open spec fn up_char(c: char) -> char {
    if 'a' <= c && c <= 'z' {
        (c as u8 - 32) as char
    } else {
        c
    }
}

/// Upper-casing of a character sequence, ASCII letters only.
pub open spec fn upper_seq(s: Seq<char>) -> Seq<char> {
    s.map_values(|c: char| up_char(c))
}

/// First index at or after `i` holding a non-space character, or the length.
pub open spec fn skip_spaces_from(s: Seq<char>, i: int) -> int
    decreases s.len() - i,
{
    if i < 0 || i >= s.len() {
        i
    } else if !is_space_char(s[i]) {
        i
    } else {
        skip_spaces_from(s, i + 1)
    }
}

/// First index at or after `i` holding a non-digit character, or the length.
pub open spec fn digits_end(s: Seq<char>, i: int) -> int
    decreases s.len() - i,
{
    if i < 0 || i >= s.len() {
        i
    } else if !is_digit_char(s[i]) {
        i
    } else {
        digits_end(s, i + 1)
    }
}

/// First index at or after `i` holding `c`, or the length.
pub open spec fn find_char_from(s: Seq<char>, i: int, c: char) -> int
    decreases s.len() - i,
{
    if i < 0 || i >= s.len() {
        i
    } else if s[i] == c {
        i
    } else {
        find_char_from(s, i + 1, c)
    }
}

/// Index just after the last non-space character strictly before `j`,
/// or 0 if there is none.
pub open spec fn back_spaces(s: Seq<char>, j: int) -> int
    decreases j,
{
    if j <= 0 || j > s.len() {
        0
    } else if !is_space_char(s[j - 1]) {
        j
    } else {
        back_spaces(s, j - 1)
    }
}

/// The sequence with surrounding whitespace removed.
pub open spec fn spec_trim(s: Seq<char>) -> Seq<char> {
    let lo = skip_spaces_from(s, 0);
    let hi = back_spaces(s, s.len() as int);
    if lo < hi {
        s.subrange(lo, hi)
    } else {
        Seq::empty()
    }
}

pub proof fn lemma_digits_end(s: Seq<char>, i: int)
    requires
        0 <= i <= s.len(),
    ensures
        i <= digits_end(s, i) <= s.len(),
        digits_end(s, i) < s.len() ==> !is_digit_char(s[digits_end(s, i)]),
        forall|k: int| i <= k < digits_end(s, i) ==> is_digit_char(s[k]),
    decreases s.len() - i,
{
    if i < s.len() && is_digit_char(s[i]) {
        lemma_digits_end(s, i + 1);
    }
}

/// Exec scan for the first non-space character at or after `from`.
pub fn skip_spaces(s: &str, from: usize) -> (r: usize)
    requires
        from <= s@.len(),
    ensures
        r == skip_spaces_from(s@, from as int),
        from <= r <= s@.len(),
{
    let n = s.unicode_len();
    let mut i = from;
    while i < n && is_space(s.get_char(i))
        invariant
            from <= i <= n,
            n == s@.len(),
            skip_spaces_from(s@, from as int) == skip_spaces_from(s@, i as int),
        decreases n - i,
    {
        i = i + 1;
    }
    i
}

/// Exec scan for the first occurrence of `c` at or after `from`.
pub fn find_char(s: &str, from: usize, c: char) -> (r: usize)
    requires
        from <= s@.len(),
    ensures
        r == find_char_from(s@, from as int, c),
        from <= r <= s@.len(),
{
    let n = s.unicode_len();
    let mut i = from;
    while i < n && s.get_char(i) != c
        invariant
            from <= i <= n,
            n == s@.len(),
            find_char_from(s@, from as int, c) == find_char_from(s@, i as int, c),
        decreases n - i,
    {
        i = i + 1;
    }
    i
}

/// Exec scan backwards over trailing spaces, from `upto` down.
pub fn rskip_spaces(s: &str, upto: usize) -> (r: usize)
    requires
        upto <= s@.len(),
    ensures
        r == back_spaces(s@, upto as int),
        r <= upto,
{
    let mut j = upto;
    while j > 0 && is_space(s.get_char(j - 1))
        invariant
            j <= upto <= s@.len(),
            back_spaces(s@, upto as int) == back_spaces(s@, j as int),
        decreases j,
    {
        j = j - 1;
    }
    j
}

/// Exec test for descriptor whitespace.
pub fn is_space(c: char) -> (r: bool)
    ensures
        r == is_space_char(c),
{
    c == ' ' || c == '\t' || c == '\r' || c == '\n' || c == '\u{b}' || c == '\u{c}'
}

/// Exec test for a decimal digit.
pub fn is_digit(c: char) -> (r: bool)
    ensures
        r == is_digit_char(c),
{
    '0' <= c && c <= '9'
}

/// Exec upper-casing of one character, ASCII letters only.
pub fn to_upper(c: char) -> (r: char)
    ensures
        r == up_char(c),
{
    if 'a' <= c && c <= 'z' {
        (c as u8 - 32) as char
    } else {
        c
    }
}

/// Case-insensitive comparison of `s[lo..hi]` against a keyword literal:
/// true exactly when the upper-cased range equals `lit`.
pub fn ci_match(s: &str, lo: usize, hi: usize, lit: &str) -> (r: bool)
    requires
        lo <= hi <= s@.len(),
    ensures
        r == (upper_seq(s@.subrange(lo as int, hi as int)) == lit@),
{
    let llen = lit.unicode_len();
    if hi - lo != llen {
        proof {
            assert(upper_seq(s@.subrange(lo as int, hi as int)).len() == hi - lo);
        }
        return false;
    }
    let ghost sub = s@.subrange(lo as int, hi as int);
    let mut k: usize = 0;
    while k < llen
        invariant
            0 <= k <= llen,
            llen == lit@.len(),
            lo <= hi <= s@.len(),
            hi - lo == llen,
            sub == s@.subrange(lo as int, hi as int),
            forall|t: int| 0 <= t < k ==> upper_seq(sub)[t] == lit@[t],
        decreases llen - k,
    {
        let c = to_upper(s.get_char(lo + k));
        let d = lit.get_char(k);
        if c != d {
            proof {
                assert(upper_seq(sub)[k as int] == up_char(sub[k as int]));
                assert(sub[k as int] == s@[lo + k]);
                assert(upper_seq(sub) != lit@);
            }
            return false;
        }
        proof {
            assert(upper_seq(sub)[k as int] == up_char(s@[lo + k]));
        }
        k = k + 1;
    }
    proof {
        assert(upper_seq(sub) =~= lit@);
    }
    true
}

/// Bounds of the whitespace tokens of `s`, left to right: each pair is the
/// token's start index and one-past-end index. `cur` carries the start of a
/// token still being scanned.
pub open spec fn token_bounds_from(s: Seq<char>, i: int, cur: Option<int>) -> Seq<(int, int)>
    decreases s.len() - i,
{
    if i < 0 || i >= s.len() {
        match cur {
            Option::None => Seq::empty(),
            Option::Some(st) => seq![(st, s.len() as int)],
        }
    } else if is_space_char(s[i]) {
        match cur {
            Option::None => token_bounds_from(s, i + 1, Option::None),
            Option::Some(st) => seq![(st, i)] + token_bounds_from(s, i + 1, Option::None),
        }
    } else {
        match cur {
            Option::None => token_bounds_from(s, i + 1, Option::Some(i)),
            Option::Some(st) => token_bounds_from(s, i + 1, cur),
        }
    }
}

/// The whitespace tokens of `s`, as index ranges.
pub open spec fn spec_tokens(s: Seq<char>) -> Seq<(int, int)> {
    token_bounds_from(s, 0, Option::None)
}

/// Exec tokenization of `s[from..upto]` on whitespace runs; returns the
/// start/end index pairs of the tokens.
pub fn tokenize(s: &str, from: usize, upto: usize) -> (r: Vec<(usize, usize)>)
    requires
        from <= upto <= s@.len(),
    ensures
        r@.len() == spec_tokens(s@.subrange(from as int, upto as int)).len(),
        forall|t: int|
            0 <= t < r@.len() ==> (#[trigger] r@[t]).0 as int == spec_tokens(
                s@.subrange(from as int, upto as int),
            )[t].0 + from && r@[t].1 as int == spec_tokens(
                s@.subrange(from as int, upto as int),
            )[t].1 + from,
        forall|t: int|
            0 <= t < r@.len() ==> from <= (#[trigger] r@[t]).0 < r@[t].1 <= upto,
{
    let ghost sub = s@.subrange(from as int, upto as int);
    let mut out: Vec<(usize, usize)> = Vec::new();
    let mut i: usize = from;
    let mut cur: Option<usize> = Option::None;
    while i < upto
        invariant
            from <= i <= upto <= s@.len(),
            sub == s@.subrange(from as int, upto as int),
            (match cur {
                Option::None => true,
                Option::Some(st) => from <= st < i,
            }),
            (match cur {
                Option::None => true,
                Option::Some(st) => !is_space_char(sub[st - from]),
            }),
            spec_tokens(sub).map_values(|p: (int, int)| (p.0 + from, p.1 + from)) == out@.map_values(
                |p: (usize, usize)| (p.0 as int, p.1 as int),
            ) + token_bounds_from(
                sub,
                i - from,
                match cur {
                    Option::None => Option::None,
                    Option::Some(st) => Option::Some(st - from),
                },
            ).map_values(|p: (int, int)| (p.0 + from, p.1 + from)),
            forall|t: int|
                0 <= t < out@.len() ==> from <= (#[trigger] out@[t]).0 < out@[t].1 <= upto,
        decreases upto - i,
    {
        let c = s.get_char(i);
        proof {
            assert(sub[i - from] == c);
        }
        if is_space(c) {
            match cur {
                Option::None => {},
                Option::Some(st) => {
                    proof {
                        assert(token_bounds_from(sub, i - from, Option::Some(st - from))
                            =~= seq![(st - from, i - from)] + token_bounds_from(
                            sub,
                            i - from + 1,
                            Option::None::<int>,
                        ));
                        assert_seqs_equal!(
                            (seq![(st - from, i - from)]
                                + token_bounds_from(sub, i - from + 1, Option::None::<int>))
                                .map_values(|p: (int, int)| (p.0 + from, p.1 + from)),
                            seq![(st as int, i as int)]
                                + token_bounds_from(sub, i - from + 1, Option::None::<int>)
                                    .map_values(|p: (int, int)| (p.0 + from, p.1 + from))
                        );
                        assert_seqs_equal!(
                            out@.push((st, i))
                                .map_values(|p: (usize, usize)| (p.0 as int, p.1 as int)),
                            out@.map_values(|p: (usize, usize)| (p.0 as int, p.1 as int))
                                + seq![(st as int, i as int)]
                        );
                    }
                    out.push((st, i));
                    cur = Option::None;
                },
            }
        } else {
            match cur {
                Option::None => {
                    cur = Option::Some(i);
                },
                Option::Some(_) => {},
            }
        }
        i = i + 1;
    }
    match cur {
        Option::None => {},
        Option::Some(st) => {
            proof {
                assert(token_bounds_from(sub, i - from, Option::Some(st - from)) =~= seq![
                    (st - from, sub.len() as int),
                ]);
                assert(sub.len() == upto - from);
                assert_seqs_equal!(
                    seq![(st - from, sub.len() as int)]
                        .map_values(|p: (int, int)| (p.0 + from, p.1 + from)),
                    seq![(st as int, upto as int)]
                );
                assert_seqs_equal!(
                    out@.push((st, upto))
                        .map_values(|p: (usize, usize)| (p.0 as int, p.1 as int)),
                    out@.map_values(|p: (usize, usize)| (p.0 as int, p.1 as int))
                        + seq![(st as int, upto as int)]
                );
            }
            out.push((st, upto));
        },
    }
    proof {
        let m1 = out@.map_values(|p: (usize, usize)| (p.0 as int, p.1 as int));
        let m2 = spec_tokens(sub).map_values(|p: (int, int)| (p.0 + from, p.1 + from));
        assert(m1 =~= m2);
        assert(out@.len() == spec_tokens(sub).len());
        assert forall|t: int|
            0 <= t < out@.len() implies (#[trigger] out@[t]).0 as int == spec_tokens(sub)[t].0
            + from && out@[t].1 as int == spec_tokens(sub)[t].1 + from by {
            assert(m1[t] == m2[t]);
            assert(m1[t] == (out@[t].0 as int, out@[t].1 as int));
            assert(m2[t] == (spec_tokens(sub)[t].0 + from, spec_tokens(sub)[t].1 + from));
        }
    }
    out
}

} // verus!
