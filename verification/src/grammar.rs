//! The grammar of one line: what stands at a position of a text, and where
//! it ends. Every function here is a statement; the tokenizer computes
//! them.

use crate::error::ErrorKind;
use crate::indention::Indention;
use crate::number::{
    lemma_numeric_choice, minimal, numeric_literal, numeric_pattern, regex_first_match,
};
use crate::text::{has_at, lemma_skip_white_space, skip_white_space};
use crate::value::{Scalar, Tree};
use vstd::prelude::*;

verus! {

/// Why a line is refused, and after how many of its characters.
pub struct Fault {
    pub kind: ErrorKind,
    pub column: int,
}

/// The end of the run of tabs and spaces that starts at `i`.
pub open spec fn blank_end(s: Seq<char>, i: int) -> int
    decreases s.len() - i,
{
    if 0 <= i < s.len() && (s[i] == ' ' || s[i] == '\t') {
        blank_end(s, i + 1)
    } else {
        i
    }
}

/// How often `c` occurs in `s` from `from` up to, not including, `to`.
pub open spec fn count_of(s: Seq<char>, c: char, from: int, to: int) -> nat
    decreases to - from,
{
    if from >= to {
        0
    } else {
        count_of(s, c, from, to - 1) + if s[to - 1] == c {
            1nat
        } else {
            0nat
        }
    }
}

/// From `i` on the line holds only white space, or white space and then a
/// comment, which begins with `#`.
pub open spec fn at_end_or_comment(s: Seq<char>, i: int) -> bool {
    let j = skip_white_space(s, i);
    j >= s.len() || s[j] == '#'
}

/// The end of the run of `c` that starts at `i`.
pub open spec fn run_end(s: Seq<char>, c: char, i: int) -> int
    decreases s.len() - i,
{
    if 0 <= i < s.len() && s[i] == c {
        run_end(s, c, i + 1)
    } else {
        i
    }
}

/// The first position at or after `from` at which `t` stands, or the end
/// of `s` where it stands nowhere.
pub open spec fn find(s: Seq<char>, t: Seq<char>, from: int) -> int
    decreases s.len() - from,
{
    if 0 <= from < s.len() && !has_at(s, from, t) {
        find(s, t, from + 1)
    } else {
        from
    }
}

/// The characters that open a string literal.
pub open spec fn is_quote(c: char) -> bool {
    c == '\'' || c == '"'
}

/// The string literal at `i`, with the position behind it. A literal opens
/// with a run of one kind of quote character and ends at the first place
/// behind that run where the same run stands again; what lies between is
/// its content. Without such a place the line is refused at its end.
pub open spec fn string_literal(s: Seq<char>, i: int) -> Result<Option<(Seq<char>, int)>, Fault> {
    if 0 <= i < s.len() && is_quote(s[i]) {
        let open_end = run_end(s, s[i], i);
        let delimiter = s.subrange(i, open_end);
        let close = find(s, delimiter, open_end);
        if close < s.len() {
            Ok(Some((s.subrange(open_end, close), close + delimiter.len())))
        } else {
            Err(Fault { kind: ErrorKind::UnclosedString, column: s.len() as int })
        }
    } else {
        Ok(None)
    }
}

/// The characters that end a key written without quotes.
pub open spec fn is_key_stop(c: char) -> bool {
    c == ' ' || c == '\t' || c == ':' || c == '#' || c == ';'
}

/// The end of the key without quotes that starts at `i`.
pub open spec fn bare_key_end(s: Seq<char>, i: int) -> int
    decreases s.len() - i,
{
    if 0 <= i < s.len() && !is_key_stop(s[i]) {
        bare_key_end(s, i + 1)
    } else {
        i
    }
}

/// The key at `i`, with the position behind it: the content of a string
/// literal, or the characters up to the first that ends a key.
pub open spec fn key(s: Seq<char>, i: int) -> Result<(Seq<char>, int), Fault> {
    match string_literal(s, i) {
        Ok(Some(found)) => Ok(found),
        Ok(None) => Ok((s.subrange(i, bare_key_end(s, i)), bare_key_end(s, i))),
        Err(f) => Err(f),
    }
}

/// The key at `i` that is followed, after white space, by a colon, with
/// the position behind the colon. Where no colon follows, the key is empty
/// and the position is `i`.
pub open spec fn key_with_colon(s: Seq<char>, i: int) -> Result<(Seq<char>, int), Fault> {
    match key(s, i) {
        Ok((k, j)) => {
            let c = skip_white_space(s, j);
            if has_at(s, c, seq![':']) {
                Ok((k, c + 1))
            } else {
                Ok((Seq::empty(), i))
            }
        },
        Err(f) => Err(f),
    }
}

/// The boolean literal at `i`, with the position behind it.
pub open spec fn boolean_literal(s: Seq<char>, i: int) -> Option<(bool, int)> {
    if has_at(s, i, "true"@) {
        Some((true, i + "true"@.len()))
    } else if has_at(s, i, "false"@) {
        Some((false, i + "false"@.len()))
    } else {
        None
    }
}

/// The primitive at `i`, with the position behind it: a string literal, or
/// else a numeric literal, or else `true` or `false`, or else `null`. A
/// number is held by the shortest literal that denotes it.
pub open spec fn primitive(s: Seq<char>, i: int) -> Result<Option<(Scalar, int)>, Fault> {
    match string_literal(s, i) {
        Ok(Some((content, end))) => Ok(Some((Scalar::Text(content), end))),
        Err(f) => Err(f),
        Ok(None) => match numeric_literal(s, i) {
            Some(m) => Ok(Some((Scalar::Number(minimal(m)), i + m.len()))),
            None => match boolean_literal(s, i) {
                Some((b, end)) => Ok(Some((Scalar::Boolean(b), end))),
                None => if has_at(s, i, "null"@) {
                    Ok(Some((Scalar::Null, i + "null"@.len())))
                } else {
                    Ok(None)
                },
            },
        },
    }
}

/// `run_end` moves forward over `c` and stops at the first other character.
pub proof fn lemma_run_end(s: Seq<char>, c: char, i: int)
    requires
        0 <= i <= s.len(),
    ensures
        i <= run_end(s, c, i) <= s.len(),
        forall|k: int| i <= k < run_end(s, c, i) ==> #[trigger] s[k] == c,
        run_end(s, c, i) < s.len() ==> s[run_end(s, c, i)] != c,
    decreases s.len() - i,
{
    if i < s.len() && s[i] == c {
        lemma_run_end(s, c, i + 1);
    }
}

/// `find` moves forward and stops where `t` stands, or at the end.
pub proof fn lemma_find(s: Seq<char>, t: Seq<char>, from: int)
    requires
        0 <= from <= s.len(),
    ensures
        from <= find(s, t, from) <= s.len(),
        forall|k: int| from <= k < find(s, t, from) ==> !has_at(s, k, t),
        find(s, t, from) < s.len() ==> has_at(s, find(s, t, from), t),
    decreases s.len() - from,
{
    if from < s.len() && !has_at(s, from, t) {
        lemma_find(s, t, from + 1);
    }
}

/// `blank_end` moves forward over tabs and spaces and stops at the first
/// other character.
pub proof fn lemma_blank_end(s: Seq<char>, i: int)
    requires
        0 <= i <= s.len(),
    ensures
        i <= blank_end(s, i) <= s.len(),
        forall|k: int| i <= k < blank_end(s, i) ==> #[trigger] s[k] == ' ' || s[k] == '\t',
        blank_end(s, i) < s.len() ==> s[blank_end(s, i)] != ' ' && s[blank_end(s, i)] != '\t',
    decreases s.len() - i,
{
    if i < s.len() && (s[i] == ' ' || s[i] == '\t') {
        lemma_blank_end(s, i + 1);
    }
}

/// Where `c` stands at `k`, it occurs in every stretch that holds `k`.
pub proof fn lemma_count_of(s: Seq<char>, c: char, from: int, to: int, k: int)
    requires
        from <= k < to,
        s[k] == c,
    ensures
        count_of(s, c, from, to) >= 1,
    decreases to - from,
{
    if k < to - 1 {
        lemma_count_of(s, c, from, to - 1, k);
    }
}

/// `bare_key_end` moves forward and stays within the text.
pub proof fn lemma_bare_key_end(s: Seq<char>, i: int)
    requires
        0 <= i <= s.len(),
    ensures
        i <= bare_key_end(s, i) <= s.len(),
    decreases s.len() - i,
{
    if i < s.len() && !is_key_stop(s[i]) {
        lemma_bare_key_end(s, i + 1);
    }
}

/// A string literal ends behind its first character, within the text.
pub proof fn lemma_string_literal(s: Seq<char>, i: int)
    requires
        0 <= i <= s.len(),
    ensures
        string_literal(s, i) matches Ok(Some((content, end))) ==> i < end <= s.len(),
{
    if i < s.len() && is_quote(s[i]) {
        lemma_run_end(s, s[i], i);
        let open_end = run_end(s, s[i], i);
        lemma_find(s, s.subrange(i, open_end), open_end);
    }
}

/// A primitive ends behind its first character, within the text.
pub proof fn lemma_primitive(s: Seq<char>, i: int)
    requires
        0 <= i <= s.len(),
    ensures
        primitive(s, i) matches Ok(Some((p, end))) ==> i < end <= s.len(),
{
    lemma_string_literal(s, i);
    lemma_numeric_choice(
        s,
        i,
        regex_first_match(numeric_pattern(), s.subrange(i, s.len() as int)),
    );
    reveal_strlit("true");
    reveal_strlit("false");
    reveal_strlit("null");
}

/// The array whose first items are `items` and whose further items stand
/// from `i` on, up to the `]` that closes it, with the position behind that
/// bracket. Items are separated by white space; each is a primitive or,
/// between `[` and `]`, an array again. Anything else is refused: `]` is
/// missing.
pub open spec fn array_items(s: Seq<char>, i: int, items: Seq<Tree>) -> Result<(Tree, int), Fault>
    decreases s.len() - i,
    when 0 <= i <= s.len()
{
    let j = skip_white_space(s, i);
    proof {
        lemma_skip_white_space(s, i);
        lemma_primitive(s, j);
    }
    if has_at(s, j, seq![']']) {
        Ok((Tree::Array(items), j + 1))
    } else if has_at(s, j, seq!['[']) {
        match array_items(s, j + 1, Seq::empty()) {
            Ok((inner, k)) => if j < k <= s.len() {
                array_items(s, k, items.push(inner))
            } else {
                Err(Fault { kind: ErrorKind::Expected("]"@), column: k })
            },
            Err(f) => Err(f),
        }
    } else {
        match primitive(s, j) {
            Ok(Some((p, k))) => array_items(s, k, items.push(Tree::Primitive(p))),
            Ok(None) => Err(Fault { kind: ErrorKind::Expected("]"@), column: j }),
            Err(f) => Err(f),
        }
    }
}

/// The array written on one line at `i`, with the position behind it.
pub open spec fn inline_array(s: Seq<char>, i: int) -> Result<Option<(Tree, int)>, Fault> {
    if has_at(s, i, seq!['[']) {
        match array_items(s, i + 1, Seq::empty()) {
            Ok(found) => Ok(Some(found)),
            Err(f) => Err(f),
        }
    } else {
        Ok(None)
    }
}

/// The text made of `count` times `c`.
pub open spec fn run_of(c: char, count: nat) -> Seq<char> {
    Seq::new(count, |k: int| c)
}

/// The white space of `amount` levels.
pub open spec fn indent_run(indention: Indention, amount: nat) -> Seq<char> {
    match indention {
        Indention::Tabs => run_of('\t', amount),
        Indention::Spaces(n) => run_of(' ', amount * n as nat),
    }
}

} // verus!
