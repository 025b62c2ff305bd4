//! Numeric literals: how they are found in a line, and which texts denote
//! a number.

use crate::text::{chars_of, has_at, push_all, slice_has_at};
use vstd::prelude::*;
use vstd::slice::slice_subrange;

verus! {

/// The text of the first match of the regular expression `pattern` in
/// `text`, as the `regex` crate finds it; nothing where there is no match or
/// where `pattern` is no regular expression.
pub uninterp spec fn regex_first_match(pattern: Seq<char>, text: Seq<char>) -> Option<Seq<char>>;

/// `regex::Regex::new` on `pattern`, then `Regex::find` on `text`: the text
/// of the first match of the pattern, and nothing where there is none or
/// where the pattern does not compile. What the match is, is left to the
/// `regex` crate: the contract only gives it its name.
#[verifier::external_body]
pub(crate) fn first_match(pattern: &str, text: &str) -> (r: Option<String>)
    ensures
        match r {
            Some(m) => regex_first_match(pattern@, text@) == Some(m@),
            None => regex_first_match(pattern@, text@) is None,
        },
{
    match regex::Regex::new(pattern) {
        Ok(re) => match re.find(text) {
            Some(m) => Some(m.as_str().to_string()),
            None => None,
        },
        Err(_) => None,
    }
}

/// The pattern of a numeric literal: an optional minus sign, digits, and
/// optionally a point followed by at least one digit, at the start of the
/// text.
pub open spec fn numeric_pattern() -> Seq<char> {
    "^-?[0-9]*(?:\\.[0-9]+)?"@
}

/// The decimal digits.
pub open spec fn is_digit(c: char) -> bool {
    '0' as u32 <= c as u32 <= '9' as u32
}

/// The end of the run of digits that starts at `i`.
pub open spec fn digits_end(t: Seq<char>, i: int) -> int
    decreases t.len() - i,
{
    if 0 <= i < t.len() && is_digit(t[i]) {
        digits_end(t, i + 1)
    } else {
        i
    }
}

/// The texts that denote a number: an optional minus sign, then digits, or
/// digits (possibly none), a point and at least one digit.
pub open spec fn is_decimal_literal(t: Seq<char>) -> bool {
    let a: int = if t.len() > 0 && t[0] == '-' {
        1
    } else {
        0
    };
    let b = digits_end(t, a);
    ||| a < b && b == t.len()
    ||| b < t.len() && t[b] == '.' && b + 1 < digits_end(t, b + 1) && digits_end(t, b + 1)
        == t.len()
}

/// `digits_end` moves forward over digits and stops at the first character
/// that is none.
pub proof fn lemma_digits_end(t: Seq<char>, i: int)
    requires
        0 <= i <= t.len(),
    ensures
        i <= digits_end(t, i) <= t.len(),
        forall|k: int| i <= k < digits_end(t, i) ==> is_digit(#[trigger] t[k]),
        digits_end(t, i) < t.len() ==> !is_digit(t[digits_end(t, i)]),
    decreases t.len() - i,
{
    if i < t.len() && is_digit(t[i]) {
        lemma_digits_end(t, i + 1);
    }
}

/// Tells whether `c` is a decimal digit.
pub fn char_is_digit(c: char) -> (r: bool)
    ensures
        r == is_digit(c),
{
    let n: u32 = c as u32;
    '0' as u32 <= n && n <= '9' as u32
}

fn skip_digits(t: &[char], i: usize) -> (e: usize)
    requires
        i <= t.len(),
    ensures
        e == digits_end(t@, i as int),
        i <= e <= t.len(),
{
    let mut e = i;
    while e < t.len() && char_is_digit(t[e])
        invariant
            i <= e <= t.len(),
            digits_end(t@, e as int) == digits_end(t@, i as int),
        decreases t.len() - e,
    {
        e += 1;
    }
    e
}

/// Tells whether `t` denotes a number.
pub fn denotes_number(t: &[char]) -> (r: bool)
    ensures
        r == is_decimal_literal(t@),
{
    let a: usize = if t.len() > 0 && t[0] == '-' {
        1
    } else {
        0
    };
    let b = skip_digits(t, a);
    if b == t.len() {
        a < b
    } else if t[b] == '.' {
        let c = skip_digits(t, b + 1);
        b + 1 < c && c == t.len()
    } else {
        false
    }
}

/// The end of the run of zeros that starts at `i` and ends before `b`.
pub open spec fn zeros_end(t: Seq<char>, i: int, b: int) -> int
    decreases b - i,
{
    if 0 <= i < b <= t.len() && t[i] == '0' {
        zeros_end(t, i + 1, b)
    } else {
        i
    }
}

/// The start of the run of zeros that ends before `e` and starts at or
/// after `a`.
pub open spec fn zeros_start(t: Seq<char>, a: int, e: int) -> int
    decreases e - a,
{
    if 0 <= a < e <= t.len() && t[e - 1] == '0' {
        zeros_start(t, a, e - 1)
    } else {
        e
    }
}

/// The shortest literal that denotes the number of the literal `t`: its
/// sign; its whole digits without leading zeros, or `0` where none is left;
/// and, where the digits behind the point are not all zeros, the point and
/// these digits without trailing zeros.
pub open spec fn minimal(t: Seq<char>) -> Seq<char> {
    let a: int = if t.len() > 0 && t[0] == '-' {
        1
    } else {
        0
    };
    let b = digits_end(t, a);
    let z = zeros_end(t, a, b);
    let whole = if z < b {
        t.subrange(z, b)
    } else {
        seq!['0']
    };
    let f = if b < t.len() {
        zeros_start(t, b + 1, t.len() as int)
    } else {
        b + 1
    };
    let fraction = if b + 1 < f {
        t.subrange(b, f)
    } else {
        Seq::empty()
    };
    t.subrange(0, a) + whole + fraction
}

/// The shortest literal that denotes the number of the literal `t`.
pub fn minimal_literal(t: &[char]) -> (r: Vec<char>)
    ensures
        r@ == minimal(t@),
{
    let a: usize = if t.len() > 0 && t[0] == '-' {
        1
    } else {
        0
    };
    let b = skip_digits(t, a);
    let mut z = a;
    while z < b && t[z] == '0'
        invariant
            a <= z <= b <= t.len(),
            zeros_end(t@, z as int, b as int) == zeros_end(t@, a as int, b as int),
        decreases b - z,
    {
        z += 1;
    }
    let mut f: usize = b;
    if b < t.len() {
        f = t.len();
        while b + 1 < f && t[f - 1] == '0'
            invariant
                b + 1 <= f <= t.len(),
                zeros_start(t@, b + 1, f as int) == zeros_start(t@, b + 1, t.len() as int),
            decreases f - b,
        {
            f -= 1;
        }
    }
    let mut r: Vec<char> = Vec::new();
    if a == 1 {
        r.push('-');
    }
    proof {
        assert(r@ =~= t@.subrange(0, a as int));
    }
    if z < b {
        push_all(&mut r, slice_subrange(t, z, b));
    } else {
        r.push('0');
    }
    if b < t.len() && b + 1 < f {
        push_all(&mut r, slice_subrange(t, b, f));
    }
    proof {
        let whole = if z < b {
            t@.subrange(z as int, b as int)
        } else {
            seq!['0']
        };
        let fraction = if b < t.len() && b + 1 < f {
            t@.subrange(b as int, f as int)
        } else {
            Seq::empty()
        };
        assert(r@ =~= t@.subrange(0, a as int) + whole + fraction);
    }
    r
}

/// The numeric literal that is taken at position `i` of `s` when the
/// pattern matched `found`: the match itself, where it stands at `i` and
/// denotes a number.
pub open spec fn numeric_choice(s: Seq<char>, i: int, found: Option<Seq<char>>) -> Option<
    Seq<char>,
> {
    match found {
        Some(m) => if has_at(s, i, m) && is_decimal_literal(m) {
            Some(m)
        } else {
            None
        },
        None => None,
    }
}

/// The numeric literal at position `i` of `s`: what the numeric pattern
/// matches in the rest of `s`, where that denotes a number.
pub open spec fn numeric_literal(s: Seq<char>, i: int) -> Option<Seq<char>> {
    numeric_choice(s, i, regex_first_match(numeric_pattern(), s.subrange(i, s.len() as int)))
}

/// A numeric literal is not empty and lies within the text.
pub proof fn lemma_numeric_choice(s: Seq<char>, i: int, found: Option<Seq<char>>)
    ensures
        numeric_choice(s, i, found) matches Some(m) ==> 0 < m.len() && 0 <= i && i + m.len()
            <= s.len(),
{
    if let Some(m) = found {
        if m.len() > 0 && m[0] == '-' {
            lemma_digits_end(m, 1);
        } else {
            lemma_digits_end(m, 0);
        }
    }
}

/// The characters of a match, where there is one.
pub open spec fn match_text(found: Option<String>) -> Option<Seq<char>> {
    match found {
        Some(f) => Some(f@),
        None => None,
    }
}

/// Decides on the match `found` of the numeric pattern at position `i` of
/// `s`: the characters of the literal, or nothing.
pub fn choose_numeric(s: &[char], i: usize, found: &Option<String>) -> (r: Option<Vec<char>>)
    ensures
        match r {
            Some(m) => numeric_choice(s@, i as int, match_text(*found)) == Some(m@),
            None => numeric_choice(s@, i as int, match_text(*found)) is None,
        },
{
    match found {
        Some(f) => {
            let m = chars_of(f.as_str());
            if slice_has_at(s, i, m.as_slice()) && denotes_number(m.as_slice()) {
                Some(m)
            } else {
                None
            }
        },
        None => None,
    }
}

} // verus!
