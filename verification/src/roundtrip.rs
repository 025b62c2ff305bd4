//! What the parser makes of what the encoder wrote.

use crate::encoder::{
    all_inline, encoding, entry_gap, entry_lines, indented, inline_items, inline_text,
    is_block_array, item_lines, item_mark, item_text, layout, needs_block,
};
use crate::error::{Diagnostic, ErrorKind};
use crate::grammar::{
    array_items, at_end_or_comment, bare_key_end, blank_end, count_of, find, indent_run,
    inline_array, is_key_stop, is_quote, key, key_with_colon, lemma_bare_key_end, primitive,
    run_end, string_literal, Fault,
};
use crate::indention::Indention;
use crate::laws::law_same_is_reflexive;
use crate::machine::{
    array_line, array_values, collapsed, depth, folded, lemma_folded, object_line, parse, replaced,
    report, run, stack_wf, step, Frame, State,
};
use crate::number::{
    digits_end, is_decimal_literal, is_digit, lemma_digits_end, lemma_numeric_choice, minimal,
    numeric_literal, numeric_pattern, regex_first_match,
};
use crate::text::{
    has_at, is_white_space, join_lines, lemma_line_end, lemma_lines_from, lemma_skip_white_space,
    line_end, lines_from, skip_white_space, split_lines, strip_cr, without_empty,
};
use crate::value::{distinct_keys, key_position, same, Scalar, Tree};
use vstd::prelude::*;

verus! {

/// Where every character from `i` up to `j` is white space and the
/// character at `j`, if there is one, is none, the white space at `i` ends
/// at `j`.
proof fn lemma_skip_to(s: Seq<char>, i: int, j: int)
    requires
        0 <= i <= j <= s.len(),
        forall|k: int| i <= k < j ==> is_white_space(#[trigger] s[k]),
        j < s.len() ==> !is_white_space(s[j]),
    ensures
        skip_white_space(s, i) == j,
    decreases j - i,
{
    if i < j {
        lemma_skip_to(s, i + 1, j);
    }
}

/// Where every character from `i` up to `j` is `c`, a tab or a space, and
/// the character at `j`, if there is one, is neither tab nor space, the run
/// of tabs and spaces at `i` ends at `j` and holds `c` only.
proof fn lemma_blank_to(s: Seq<char>, c: char, other: char, i: int, j: int)
    requires
        0 <= i <= j <= s.len(),
        c == ' ' || c == '\t',
        other != c,
        forall|k: int| i <= k < j ==> #[trigger] s[k] == c,
        j < s.len() ==> s[j] != ' ' && s[j] != '\t',
    ensures
        blank_end(s, i) == j,
        count_of(s, c, i, j) == j - i,
        count_of(s, other, i, j) == 0,
    decreases j - i,
{
    if i < j {
        lemma_blank_to(s, c, other, i + 1, j);
        lemma_count_from(s, c, i, j);
        lemma_count_from(s, other, i, j);
    }
}

/// The count of a stretch is the count of its first character and of the
/// rest.
proof fn lemma_count_from(s: Seq<char>, c: char, i: int, j: int)
    requires
        i < j,
    ensures
        count_of(s, c, i, j) == count_of(s, c, i + 1, j) + if s[i] == c {
            1nat
        } else {
            0nat
        },
    decreases j - i,
{
    if i + 1 < j {
        lemma_count_from(s, c, i, j - 1);
        assert(count_of(s, c, i + 1, j) == count_of(s, c, i + 1, j - 1) + if s[j - 1] == c {
            1nat
        } else {
            0nat
        });
    } else {
        assert(count_of(s, c, i, i) == 0);
        assert(count_of(s, c, i + 1, j) == 0);
    }
}

/// Where no character from `i` up to `j` ends a key and the character at
/// `j`, if there is one, does, the key without quotes at `i` ends at `j`.
proof fn lemma_bare_key_to(s: Seq<char>, i: int, j: int)
    requires
        0 <= i <= j <= s.len(),
        forall|k: int| i <= k < j ==> !is_key_stop(#[trigger] s[k]),
        j < s.len() ==> is_key_stop(s[j]),
    ensures
        bare_key_end(s, i) == j,
    decreases j - i,
{
    if i < j {
        lemma_bare_key_to(s, i + 1, j);
    }
}

/// The white space of `d` levels and of one more level is the white space
/// of `d + 1` levels.
proof fn lemma_indent_deeper(u: Indention, d: nat)
    ensures
        indent_run(u, d) + u.unit() == indent_run(u, d + 1),
        indent_run(u, 0) == Seq::<char>::empty(),
{
    match u {
        Indention::Tabs => {
            assert(indent_run(u, d) + u.unit() =~= indent_run(u, d + 1));
        },
        Indention::Spaces(n) => {
            assert(d * n as nat + n as nat == (d + 1) * n as nat) by (nonlinear_arith);
            assert(0 * n as nat == 0) by (nonlinear_arith);
            assert(indent_run(u, d) + u.unit() =~= indent_run(u, d + 1));
        },
    }
    assert(indent_run(u, 0) =~= Seq::<char>::empty());
}

/// The unit `unit` allows a line at depth `d` under the unit `u`: it is
/// `u`, or it is not known yet and the line is not deeper than one level.
pub open spec fn unit_allows(unit: Option<Indention>, u: Indention, d: nat) -> bool {
    unit == Some(u) || (unit is None && d <= 1)
}

/// The unit after a line at depth `d` under the unit `u`.
pub open spec fn unit_after(unit: Option<Indention>, u: Indention, d: nat) -> Option<Indention> {
    if d == 0 {
        unit
    } else {
        Some(u)
    }
}

/// A line that begins with the white space of `d` levels, and goes on with
/// a character that is neither white space nor `#`, has the depth `d`.
proof fn lemma_measured(unit: Option<Indention>, u: Indention, d: nat, s: Seq<char>)
    requires
        u.wf(),
        unit_allows(unit, u, d),
        has_at(s, 0, indent_run(u, d)),
        indent_run(u, d).len() < s.len(),
        !is_white_space(s[indent_run(u, d).len() as int]),
        s[indent_run(u, d).len() as int] != '#',
    ensures
        !at_end_or_comment(s, 0),
        blank_end(s, 0) == indent_run(u, d).len(),
        depth(
            unit,
            count_of(s, '\t', 0, blank_end(s, 0)),
            count_of(s, ' ', 0, blank_end(s, 0)),
        ) == Ok::<(nat, Option<Indention>), ErrorKind>((d, unit_after(unit, u, d))),
{
    let pre = indent_run(u, d);
    let m = pre.len() as int;
    assert forall|k: int| 0 <= k < m implies s[k] == pre[k] by {
        assert(s.subrange(0, m)[k] == pre[k]);
    }
    assert forall|k: int| 0 <= k < m implies is_white_space(#[trigger] s[k]) by {
        assert(s[k] == pre[k]);
    }
    lemma_skip_to(s, 0, m);
    match u {
        Indention::Tabs => {
            assert forall|k: int| 0 <= k < m implies #[trigger] s[k] == '\t' by {
                assert(s[k] == pre[k]);
            }
            lemma_blank_to(s, '\t', ' ', 0, m);
        },
        Indention::Spaces(n) => {
            assert forall|k: int| 0 <= k < m implies #[trigger] s[k] == ' ' by {
                assert(s[k] == pre[k]);
            }
            lemma_blank_to(s, ' ', '\t', 0, m);
            assert(m == d * n as nat);
            if d > 0 {
                assert((d * n as nat) % n as nat == 0 && (d * n as nat) / n as nat == d && d
                    * n as nat > 0 && (d == 1 ==> d * n as nat == n as nat)) by (nonlinear_arith)
                    requires
                        n >= 1,
                        d > 0,
                ;
            } else {
                assert(0 * n as nat == 0) by (nonlinear_arith);
            }
        },
    }
}

/// A key that is written as it is and read back as it was written: it
/// holds no white space and no character that ends a key, and it does not
/// begin with a quote character.
pub open spec fn plain_key(k: Seq<char>) -> bool {
    &&& forall|i: int| 0 <= i < k.len() ==> !is_key_stop(#[trigger] k[i]) && !is_white_space(k[i])
    &&& k.len() > 0 ==> !is_quote(k[0])
}

/// A string that is written between quotes on one line and read back as it
/// was written: it is not empty and holds no quote character and no line
/// feed.
pub open spec fn plain_text(t: Seq<char>) -> bool {
    t.len() > 0 && !needs_block(t)
}

/// What follows a number on a line that the encoder writes: nothing, a
/// space, or the bracket that closes an array.
pub open spec fn ends_number(rest: Seq<char>) -> bool {
    rest.len() == 0 || rest[0] == ' ' || rest[0] == ']'
}

/// The numeric pattern finds the literal `m` wherever the encoder writes
/// it: in every text that begins with `m` and goes on as a line does behind
/// a number, the first match of the pattern is `m`.
pub open spec fn pattern_finds(m: Seq<char>) -> bool {
    forall|rest: Seq<char>|
        ends_number(rest) ==> #[trigger] regex_first_match(numeric_pattern(), m + rest) == Some(m)
}

/// A number that is read back as it was written: the shortest literal that
/// denotes it, which the numeric pattern finds.
pub open spec fn plain_number(m: Seq<char>) -> bool {
    is_decimal_literal(m) && minimal(m) == m && pattern_finds(m)
}

/// A literal that denotes a number is not empty and is made of a minus
/// sign, digits and a point.
proof fn lemma_decimal_chars(m: Seq<char>)
    requires
        is_decimal_literal(m),
    ensures
        m.len() > 0,
        forall|j: int| 0 <= j < m.len() ==> #[trigger] m[j] == '-' || is_digit(m[j]) || m[j] == '.',
{
    let a: int = if m.len() > 0 && m[0] == '-' {
        1
    } else {
        0
    };
    lemma_digits_end(m, a);
    let b = digits_end(m, a);
    if b < m.len() {
        lemma_digits_end(m, b + 1);
    }
}

/// A primitive that is read back as it was written: `true`, `false`,
/// `null`, a plain number, or a plain string.
pub open spec fn plain_scalar(p: Scalar) -> bool {
    match p {
        Scalar::Number(t) => plain_number(t),
        Scalar::Text(t) => plain_text(t),
        Scalar::Boolean(b) => true,
        Scalar::Null => true,
    }
}

/// A string that is written as a block and read back as it was written:
/// it holds a quote character or a line feed, but no carriage return; it
/// does not end with a line feed, and it begins with neither a space nor a
/// tab.
pub open spec fn block_text(t: Seq<char>) -> bool {
    &&& needs_block(t)
    &&& !t.contains('\r')
    &&& t.len() > 0
    &&& t.last() != '\n'
    &&& t[0] != ' '
    &&& t[0] != '\t'
}

/// A primitive that is read back as it was written: a plain primitive, or
/// a string that is written as a block.
pub open spec fn fit_scalar(p: Scalar) -> bool {
    plain_scalar(p) || match p {
        Scalar::Text(t) => block_text(t),
        _ => false,
    }
}

/// A text that begins with none of the characters with which a numeric
/// literal begins holds no numeric literal at its start.
proof fn lemma_not_numeric(s: Seq<char>, i: int)
    requires
        0 <= i <= s.len(),
        i < s.len() ==> !is_digit(s[i]) && s[i] != '-' && s[i] != '.',
    ensures
        numeric_literal(s, i) is None,
{
    let found = regex_first_match(numeric_pattern(), s.subrange(i, s.len() as int));
    if let Some(m) = found {
        if has_at(s, i, m) && is_decimal_literal(m) {
            lemma_numeric_choice(s, i, found);
            assert(s.subrange(i, i + m.len())[0] == m[0]);
            let a: int = if m[0] == '-' {
                1
            } else {
                0
            };
            lemma_digits_end(m, a);
            let b = digits_end(m, a);
            if a < b {
                assert(is_digit(m[a]));
            }
        }
    }
}

/// A plain string between single quotes is read as that string.
proof fn lemma_quoted(s: Seq<char>, i: int, t: Seq<char>)
    requires
        0 <= i,
        plain_text(t),
        has_at(s, i, seq!['\''] + t + seq!['\'']),
    ensures
        string_literal(s, i) == Ok::<Option<(Seq<char>, int)>, Fault>(
            Some((t, i + t.len() + 2)),
        ),
{
    let whole = seq!['\''] + t + seq!['\''];
    let n = t.len() as int;
    assert forall|k: int| 0 <= k < n + 2 implies s[i + k] == whole[k] by {
        assert(s.subrange(i, i + whole.len())[k] == whole[k]);
    }
    assert(s[i] == whole[0]);
    assert(s[i + 1] == whole[1]);
    assert(whole[1] == t[0]);
    assert(t.contains(t[0]));
    assert(run_end(s, '\'', i + 1) == i + 1);
    assert(run_end(s, '\'', i) == i + 1);
    let delimiter = s.subrange(i, i + 1);
    assert(delimiter =~= seq!['\'']);
    assert forall|k: int| i + 1 <= k < i + 1 + n implies !has_at(s, k, delimiter) by {
        assert(s[k] == whole[k - i]);
        assert(whole[k - i] == t[k - i - 1]);
        assert(t.contains(t[k - i - 1]));
        if has_at(s, k, delimiter) {
            assert(s.subrange(k, k + 1)[0] == delimiter[0]);
        }
    }
    assert(s[i + 1 + n] == whole[n + 1]);
    assert(s.subrange(i + 1 + n, i + 2 + n) =~= delimiter);
    lemma_find_to(s, delimiter, i + 1, i + 1 + n);
    assert forall|k: int| 0 <= k < n implies s.subrange(i + 1, i + 1 + n)[k] == t[k] by {
        assert(s.subrange(i, i + whole.len())[k + 1] == whole[k + 1]);
    }
    assert(s.subrange(i + 1, i + 1 + n) =~= t);
}

/// Where `t` stands nowhere from `from` up to `j` and stands at `j`, the
/// first place at or after `from` at which it stands is `j`.
proof fn lemma_find_to(s: Seq<char>, t: Seq<char>, from: int, j: int)
    requires
        0 <= from <= j < s.len(),
        forall|k: int| from <= k < j ==> !has_at(s, k, t),
        has_at(s, j, t),
    ensures
        find(s, t, from) == j,
    decreases j - from,
{
    if from < j {
        lemma_find_to(s, t, from + 1, j);
    }
}

/// A plain primitive is read as it was written, where the line ends
/// behind it or goes on with a space or a closing bracket.
proof fn lemma_scalar_read(s: Seq<char>, i: int, p: Scalar)
    requires
        0 <= i,
        plain_scalar(p),
        has_at(s, i, inline_text(p)->0),
        ends_number(s.subrange(i + inline_text(p)->0.len(), s.len() as int)),
    ensures
        primitive(s, i) == Ok::<Option<(Scalar, int)>, Fault>(
            Some((p, i + inline_text(p)->0.len())),
        ),
        inline_text(p)->0.len() > 0,
        !is_white_space(inline_text(p)->0[0]),
        inline_text(p)->0[0] != '#',
        inline_text(p)->0[0] != '[',
        inline_text(p)->0[0] != ']',
        inline_text(p)->0[0] != '|',
        inline_text(p)->0[0] != ':',
        !is_quote(inline_text(p)->0[0]) ==> forall|j: int|
            0 <= j < inline_text(p)->0.len() ==> !is_key_stop(#[trigger] inline_text(p)->0[j]),
{
    reveal_strlit("true");
    reveal_strlit("false");
    reveal_strlit("null");
    let text = inline_text(p)->0;
    assert(s.subrange(i, i + text.len()) == text);
    match p {
        Scalar::Text(t) => {
            lemma_quoted(s, i, t);
            assert(text[0] == '\'');
        },
        Scalar::Boolean(b) => {
            assert(s[i] == s.subrange(i, i + text.len())[0]);
            assert(text[0] == 't' || text[0] == 'f');
            lemma_not_numeric(s, i);
            if !b {
                if has_at(s, i, "true"@) {
                    assert(s.subrange(i, i + 4)[0] == 't');
                }
            }
        },
        Scalar::Null => {
            assert(s[i] == s.subrange(i, i + text.len())[0]);
            assert(text[0] == 'n');
            lemma_not_numeric(s, i);
            if has_at(s, i, "true"@) {
                assert(s.subrange(i, i + 4)[0] == 't');
            }
            if has_at(s, i, "false"@) {
                assert(s.subrange(i, i + 5)[0] == 'f');
            }
        },
        Scalar::Number(m) => {
            lemma_decimal_chars(m);
            assert(s[i] == s.subrange(i, i + m.len())[0]);
            let rest = s.subrange(i + m.len(), s.len() as int);
            assert(s.subrange(i, s.len() as int) =~= m + rest);
            assert(regex_first_match(numeric_pattern(), m + rest) == Some(m));
        },
    }
}

/// A plain key is read as it was written, up to the character that ends
/// it.
proof fn lemma_key_read(s: Seq<char>, i: int, k: Seq<char>)
    requires
        0 <= i,
        plain_key(k),
        has_at(s, i, k),
        i + k.len() < s.len() ==> is_key_stop(s[i + k.len()]),
    ensures
        key(s, i) == Ok::<(Seq<char>, int), Fault>((k, i + k.len())),
{
    assert forall|j: int| i <= j < i + k.len() implies !is_key_stop(#[trigger] s[j]) by {
        assert(s.subrange(i, i + k.len())[j - i] == k[j - i]);
    }
    lemma_bare_key_to(s, i, i + k.len());
    if k.len() > 0 {
        assert(s.subrange(i, i + k.len())[0] == k[0]);
    }
}

/// Every item is a plain primitive.
pub open spec fn plain_items(items: Seq<Tree>) -> bool {
    forall|i: int| 0 <= i < items.len() ==> plain_item(#[trigger] items[i])
}

/// The value is a plain primitive.
pub open spec fn plain_item(t: Tree) -> bool {
    match t {
        Tree::Primitive(p) => plain_scalar(p),
        _ => false,
    }
}

/// The text of the first `k` items begins the text of the first `n` items.
proof fn lemma_inline_prefix(items: Seq<Tree>, k: int, n: int)
    requires
        0 <= k <= n <= items.len(),
    ensures
        inline_items(items, k).len() <= inline_items(items, n).len(),
        inline_items(items, n).subrange(
            0,
            inline_items(items, k).len() as int,
        ) == inline_items(items, k),
    decreases n - k,
{
    let whole = inline_items(items, n);
    let part = inline_items(items, k);
    if k == n {
        assert(whole.subrange(0, part.len() as int) =~= part);
    } else {
        lemma_inline_prefix(items, k, n - 1);
        let before = inline_items(items, n - 1);
        assert(before.subrange(0, part.len() as int) == part);
        if n == 1 {
            assert(part =~= Seq::<char>::empty());
            assert(whole.subrange(0, 0) =~= part);
        } else {
            assert(whole == before + seq![' '] + item_text(items[n - 1]));
            assert(whole.subrange(0, part.len() as int) =~= before.subrange(0, part.len() as int));
        }
    }
}

/// The items of an array of plain primitives, written on one line, are
/// read as they were written: from behind the first `k` items on, the rest
/// is read up to the bracket that closes the array.
proof fn lemma_items_read(s: Seq<char>, i: int, items: Seq<Tree>, k: int)
    requires
        0 <= i,
        plain_items(items),
        0 <= k <= items.len(),
        has_at(
            s,
            i,
            inline_items(items, items.len() as int) + seq![']'],
        ),
    ensures
        array_items(
            s,
            i + inline_items(items, k).len(),
            items.take(k),
        ) == Ok::<(Tree, int), Fault>(
            (
                Tree::Array(items),
                i + inline_items(items, items.len() as int).len() + 1,
            ),
        ),
    decreases items.len() - k,
{
    let n = items.len() as int;
    let body = inline_items(items, n);
    let whole = body + seq![']'];
    let part = inline_items(items, k);
    let q = i + part.len();
    lemma_inline_prefix(items, k, n);
    assert forall|j: int| 0 <= j < whole.len() implies s[i + j] == whole[j] by {
        assert(s.subrange(i, i + whole.len())[j] == whole[j]);
    }
    if k == n {
        assert(s[q] == whole[body.len() as int]);
        assert(s[q] == ']');
        lemma_skip_to(s, q, q);
        assert(s.subrange(q, q + 1) =~= seq![']']);
        assert(items.take(k) =~= items);
    } else {
        lemma_inline_prefix(items, k + 1, n);
        let next = inline_items(items, k + 1);
        let p = items[k]->Primitive_0;
        assert(plain_item(items[k]));
        let text = inline_text(p)->0;
        assert(item_text(items[k]) == text);
        let gap: int = if k == 0 {
            0
        } else {
            1
        };
        assert(next.len() == part.len() + gap + text.len());
        assert forall|j: int| 0 <= j < text.len() implies s[q + gap + j] == text[j] by {
            assert(body.subrange(0, next.len() as int)[part.len() + gap + j] == next[part.len()
                + gap + j]);
            assert(s[i + part.len() + gap + j] == whole[part.len() + gap + j]);
        }
        assert(s.subrange(q + gap, q + gap + text.len()) =~= text);
        assert(ends_number(s.subrange(q + gap + text.len(), s.len() as int))) by {
            let behind = s.subrange(q + gap + text.len(), s.len() as int);
            assert(behind[0] == s[i + next.len()]);
            assert(s[i + next.len()] == whole[next.len() as int]);
            if k + 1 < n {
                lemma_inline_prefix(items, k + 2, n);
                let further = inline_items(items, k + 2);
                assert(further == next + seq![' '] + item_text(items[k + 1]));
                assert(body.subrange(0, further.len() as int)[next.len() as int] == further[next.len() as int]);
            } else {
                assert(next =~= body);
            }
        }
        lemma_scalar_read(s, q + gap, p);
        assert(s[q + gap] == text[0]);
        if k > 0 {
            assert(body.subrange(0, next.len() as int)[part.len() as int] == next[part.len() as int]);
            assert(s[q] == whole[part.len() as int]);
            assert(s[q] == ' ');
            lemma_skip_to(s, q, q + 1);
        } else {
            lemma_skip_to(s, q, q);
        }
        let j = q + gap;
        if has_at(s, j, seq![']']) {
            assert(s.subrange(j, j + 1)[0] == ']');
        }
        if has_at(s, j, seq!['[']) {
            assert(s.subrange(j, j + 1)[0] == '[');
        }
        assert(items.take(k).push(Tree::Primitive(p)) =~= items.take(k + 1));
        lemma_items_read(s, i, items, k + 1);
    }
}

/// An array of plain primitives, written on one line, is read as it was
/// written.
proof fn lemma_inline_array_read(s: Seq<char>, i: int, items: Seq<Tree>)
    requires
        0 <= i,
        plain_items(items),
        has_at(
            s,
            i,
            seq!['['] + inline_items(items, items.len() as int) + seq![']'],
        ),
    ensures
        inline_array(s, i) == Ok::<Option<(Tree, int)>, Fault>(
            Some(
                (
                    Tree::Array(items),
                    i + inline_items(items, items.len() as int).len() + 2,
                ),
            ),
        ),
{
    let body = inline_items(items, items.len() as int);
    let whole = seq!['['] + body + seq![']'];
    assert forall|j: int| 0 <= j < whole.len() implies s[i + j] == whole[j] by {
        assert(s.subrange(i, i + whole.len())[j] == whole[j]);
    }
    assert(s.subrange(i, i + 1) =~= seq!['[']);
    assert forall|j: int| 0 <= j < body.len() + 1 implies s.subrange(i + 1, i + 2 + body.len())[j]
        == (body + seq![']'])[j] by {
        assert(s[i + 1 + j] == whole[j + 1]);
    }
    assert(s.subrange(i + 1, i + 2 + body.len()) =~= body + seq![']']);
    lemma_items_read(s, i + 1, items, 0);
    assert(items.take(0) =~= Seq::<Tree>::empty());
}

/// At a `|` stands no array on one line and no primitive, but the `|`.
proof fn lemma_bar(s: Seq<char>, b: int)
    requires
        0 <= b < s.len(),
        s[b] == '|',
    ensures
        inline_array(s, b) == Ok::<Option<(Tree, int)>, Fault>(None),
        primitive(s, b) == Ok::<Option<(Scalar, int)>, Fault>(None),
        has_at(s, b, seq!['|']),
        !at_end_or_comment(s, b),
{
    reveal_strlit("true");
    reveal_strlit("false");
    reveal_strlit("null");
    lemma_not_numeric(s, b);
    lemma_skip_to(s, b, b);
    assert(s.subrange(b, b + 1) =~= seq!['|']);
    if has_at(s, b, seq!['[']) {
        assert(s.subrange(b, b + 1)[0] == '[');
    }
    if has_at(s, b, "true"@) {
        assert(s.subrange(b, b + 4)[0] == 't');
    }
    if has_at(s, b, "false"@) {
        assert(s.subrange(b, b + 5)[0] == 'f');
    }
    if has_at(s, b, "null"@) {
        assert(s.subrange(b, b + 4)[0] == 'n');
    }
}

/// The end of a line counts as its end.
proof fn lemma_at_end(s: Seq<char>)
    ensures
        at_end_or_comment(s, s.len() as int),
        skip_white_space(s, s.len() as int) == s.len(),
{
}

/// A value as the encoder writes it behind a key or a dash: a primitive
/// that fits, an array of plain primitives on one line, a block array, or
/// an object.
pub open spec fn plain_head(v: Tree) -> bool {
    match v {
        Tree::Primitive(p) => fit_scalar(p),
        Tree::Object(entries) => true,
        Tree::Array(items) => all_inline(items) ==> plain_items(items),
    }
}

/// The stack after the line that begins the entry of `k` with the value
/// `v` has been read at depth `d` under the object on top of `st`.
pub open spec fn entry_begun(st: Seq<Frame>, k: Seq<char>, v: Tree, d: nat) -> Seq<Frame> {
    let top = st.last();
    match v {
        Tree::Primitive(p) => if inline_text(p) is Some {
            replaced(st, top.with_entry(k, v))
        } else {
            replaced(st, top.with_key(k)).push(Frame::text(d + 1))
        },
        Tree::Object(entries) => replaced(st, top.with_key(k)).push(
            Frame::object(d + 1, Seq::empty()),
        ),
        Tree::Array(items) => if all_inline(items) {
            replaced(st, top.with_entry(k, v))
        } else {
            replaced(st, top.with_key(k)).push(Frame::array(d + 1))
        },
    }
}

/// The line with which the encoder begins an entry is read, under an
/// object, as the beginning of that entry.
proof fn lemma_entry_line(
    st: Seq<Frame>,
    s: Seq<char>,
    i: int,
    d: nat,
    k: Seq<char>,
    v: Tree,
    unit: Seq<char>,
    prefix: Seq<char>,
)
    requires
        0 <= i,
        plain_key(k),
        plain_head(v),
        s.len() == i + k.len() + 1 + entry_gap(v).len() + layout(unit, prefix, v).head.len(),
        has_at(s, i, k + seq![':'] + entry_gap(v) + layout(unit, prefix, v).head),
    ensures
        object_line(st, s, i, d) == Ok::<Seq<Frame>, Fault>(entry_begun(st, k, v, d)),
{
    let head = layout(unit, prefix, v).head;
    let rest = k + seq![':'] + entry_gap(v) + head;
    let j = i + k.len();
    let kn = k.len() as int;
    assert forall|x: int| 0 <= x < rest.len() implies s[i + x] == rest[x] by {
        assert(s.subrange(i, i + rest.len())[x] == rest[x]);
    }
    assert(s.subrange(i, i + k.len()) =~= k);
    assert(s[j] == rest[kn]);
    assert(s[j] == ':');
    lemma_key_read(s, i, k);
    lemma_skip_to(s, j, j);
    lemma_at_end(s);
    if is_block_array(v) {
        assert(head =~= seq!['-', '-']);
        assert(s[j + 1] == rest[kn + 1]);
        assert(s[j + 2] == rest[kn + 2]);
        assert(s.subrange(j, j + 3) =~= seq![':', '-', '-']);
    } else {
        assert(entry_gap(v) =~= seq![' ']);
        assert(s[j + 1] == rest[kn + 1]);
        assert(s[j + 1] == ' ');
        if has_at(s, j, seq![':', '-', '-']) {
            assert(s.subrange(j, j + 3)[1] == '-');
        }
        assert(s.subrange(j, j + 1) =~= seq![':']);
        let b = j + 2;
        match v {
            Tree::Object(entries) => {
                assert(head =~= Seq::<char>::empty());
                lemma_skip_to(s, j + 1, j + 2);
            },
            Tree::Primitive(p) => {
                if inline_text(p) is Some {
                    let text = inline_text(p)->0;
                    assert(head == text);
                    assert forall|x: int| 0 <= x < text.len() implies s.subrange(
                        b,
                        b + text.len(),
                    )[x] == text[x] by {
                        assert(s[i + k.len() + 2 + x] == rest[kn + 2 + x]);
                    }
                    assert(s.subrange(b, b + text.len()) =~= text);
                    assert(s.subrange(b + text.len(), s.len() as int) =~= Seq::<char>::empty());
                    lemma_scalar_read(s, b, p);
                    assert(s[b] == text[0]);
                    lemma_skip_to(s, j + 1, j + 2);
                    if has_at(s, b, seq!['[']) {
                        assert(s.subrange(b, b + 1)[0] == '[');
                    }
                } else {
                    assert(head =~= seq!['|']);
                    assert(s[b] == rest[kn + 2]);
                    assert(s[b] == '|');
                    lemma_skip_to(s, j + 1, j + 2);
                    lemma_bar(s, b);
                }
            },
            Tree::Array(items) => {
                let body = inline_items(items, items.len() as int);
                assert(head == seq!['['] + body + seq![']']);
                assert forall|x: int| 0 <= x < head.len() implies s.subrange(
                    b,
                    b + head.len(),
                )[x] == head[x] by {
                    assert(s[i + k.len() + 2 + x] == rest[kn + 2 + x]);
                }
                assert(s.subrange(b, b + head.len()) =~= head);
                lemma_inline_array_read(s, b, items);
                assert(s[b] == head[0]);
                assert(s[b] == '[');
                lemma_skip_to(s, j + 1, j + 2);
            },
        }
    }
}

/// A value without a colon in it, where it is a string.
pub open spec fn calm_item(t: Tree) -> bool {
    match t {
        Tree::Primitive(Scalar::Text(x)) => !x.contains(':'),
        _ => true,
    }
}

/// A value as the encoder writes it behind a dash: a plain head, and where
/// it is an array on one line, none of its strings holds a colon.
pub open spec fn calm_head(v: Tree) -> bool {
    &&& plain_head(v)
    &&& match v {
        Tree::Array(items) => all_inline(items) ==> forall|i: int|
            0 <= i < items.len() ==> calm_item(#[trigger] items[i]),
        _ => true,
    }
}

/// The text of plain items without colons holds no colon.
proof fn lemma_inline_calm(items: Seq<Tree>, n: int)
    requires
        0 <= n <= items.len(),
        plain_items(items),
        forall|i: int| 0 <= i < items.len() ==> calm_item(#[trigger] items[i]),
    ensures
        !inline_items(items, n).contains(':'),
    decreases n,
{
    reveal_strlit("true");
    reveal_strlit("false");
    reveal_strlit("null");
    let whole = inline_items(items, n);
    if n > 0 {
        lemma_inline_calm(items, n - 1);
        let before = inline_items(items, n - 1);
        let text = item_text(items[n - 1]);
        assert(plain_item(items[n - 1]));
        assert(calm_item(items[n - 1]));
        assert(!text.contains(':')) by {
            if text.contains(':') {
                let j = choose|j: int| 0 <= j < text.len() && text[j] == ':';
                match items[n - 1] {
                    Tree::Primitive(Scalar::Text(x)) => {
                        assert(text == seq!['\''] + x + seq!['\'']);
                        assert(x[j - 1] == ':');
                    },
                    Tree::Primitive(Scalar::Number(m)) => {
                        lemma_decimal_chars(m);
                        assert(m[j] == '-' || is_digit(m[j]) || m[j] == '.');
                    },
                    _ => {},
                }
            }
        }
        if whole.contains(':') {
            let j = choose|j: int| 0 <= j < whole.len() && whole[j] == ':';
            if n == 1 {
                assert(text[j] == ':');
            } else {
                assert(whole == before + seq![' '] + text);
                if j < before.len() {
                    assert(before[j] == ':');
                } else if j > before.len() {
                    assert(text[j - before.len() - 1] == ':');
                }
            }
        }
    }
}

/// The stack after the line that begins the item `v` has been read at
/// depth `d` under the array on top of `st`.
pub open spec fn item_begun(st: Seq<Frame>, v: Tree, d: nat) -> Seq<Frame> {
    let top = st.last();
    match v {
        Tree::Primitive(p) => if inline_text(p) is Some {
            replaced(st, top.with_value(v))
        } else {
            st.push(Frame::text(d + 1))
        },
        Tree::Object(entries) => st.push(Frame::object(d + 1, Seq::empty())),
        Tree::Array(items) => if all_inline(items) {
            replaced(st, top.with_value(v))
        } else {
            st.push(Frame::array(d + 1))
        },
    }
}

/// Where no colon stands from `a` on and no quote stands at `a`, no key
/// with its colon is read at `a`.
proof fn lemma_no_key(s: Seq<char>, a: int)
    requires
        0 <= a <= s.len(),
        a < s.len() ==> !is_quote(s[a]),
        forall|j: int| a <= j < s.len() ==> #[trigger] s[j] != ':',
    ensures
        key_with_colon(s, a) == Ok::<(Seq<char>, int), Fault>((Seq::empty(), a)),
{
    lemma_bare_key_end(s, a);
    let p = bare_key_end(s, a);
    lemma_skip_white_space(s, p);
    let c = skip_white_space(s, p);
    if has_at(s, c, seq![':']) {
        assert(s.subrange(c, c + 1)[0] == ':');
    }
}

/// A line that is `--` behind its indentation opens an array under an
/// array.
proof fn lemma_item_line_block(st: Seq<Frame>, s: Seq<char>, i: int, d: nat)
    requires
        0 <= i,
        s.len() == i + 2,
        has_at(s, i, seq!['-', '-']),
    ensures
        array_line(st, s, i, d) == Ok::<Seq<Frame>, Fault>(st.push(Frame::array(d + 1))),
{
    lemma_at_end(s);
}

/// A line that is a dash and a space behind its indentation opens an
/// object under an array.
proof fn lemma_item_line_open(st: Seq<Frame>, s: Seq<char>, i: int, d: nat)
    requires
        0 <= i,
        s.len() == i + 2,
        has_at(s, i, seq!['-', ' ']),
    ensures
        array_line(st, s, i, d) == Ok::<Seq<Frame>, Fault>(
            st.push(Frame::object(d + 1, Seq::empty())),
        ),
{
    lemma_at_end(s);
    assert(s.subrange(i, i + 2)[0] == '-');
    assert(s.subrange(i, i + 2)[1] == ' ');
    if has_at(s, i, seq!['-', '-']) {
        assert(s.subrange(i, i + 2)[1] == '-');
    }
    assert(s.subrange(i, i + 1) =~= seq!['-']);
    lemma_skip_to(s, i + 1, i + 2);
}

/// Behind a dash and a space at `i`, the line is read from `i + 2` on,
/// where a character stands that is no white space.
proof fn lemma_item_mark(s: Seq<char>, i: int)
    requires
        0 <= i,
        i + 2 < s.len(),
        s[i] == '-',
        s[i + 1] == ' ',
        !is_white_space(s[i + 2]),
        s[i + 2] != '#',
    ensures
        !has_at(s, i, seq!['-', '-']),
        has_at(s, i, seq!['-']),
        skip_white_space(s, i + 1) == i + 2,
        skip_white_space(s, i + 2) == i + 2,
        !at_end_or_comment(s, i + 2),
{
    if has_at(s, i, seq!['-', '-']) {
        assert(s.subrange(i, i + 2)[1] == '-');
    }
    assert(s.subrange(i, i + 1) =~= seq!['-']);
    lemma_skip_to(s, i + 1, i + 2);
    lemma_skip_to(s, i + 2, i + 2);
}

/// A line that is a dash, a space and a plain primitive adds that
/// primitive to the array.
proof fn lemma_item_line_scalar(st: Seq<Frame>, s: Seq<char>, i: int, d: nat, p: Scalar)
    requires
        0 <= i,
        plain_scalar(p),
        s.len() == i + 2 + inline_text(p)->0.len(),
        s[i] == '-',
        s[i + 1] == ' ',
        has_at(s, i + 2, inline_text(p)->0),
    ensures
        array_line(st, s, i, d) == Ok::<Seq<Frame>, Fault>(
            replaced(st, st.last().with_value(Tree::Primitive(p))),
        ),
{
    reveal_strlit("true");
    reveal_strlit("false");
    reveal_strlit("null");
    let a = i + 2;
    let text = inline_text(p)->0;
    let top = st.last();
    assert(s.subrange(a + text.len(), s.len() as int) =~= Seq::<char>::empty());
    lemma_scalar_read(s, a, p);
    assert(s[a] == s.subrange(a, a + text.len())[0]);
    lemma_item_mark(s, i);
    lemma_at_end(s);
    match p {
        Scalar::Text(t) => {
            lemma_quoted(s, a, t);
        },
        _ => {
            assert(!is_quote(text[0])) by {
                if let Scalar::Number(m) = p {
                    lemma_decimal_chars(m);
                }
            }
            assert forall|x: int| a <= x < s.len() implies !is_key_stop(#[trigger] s[x]) by {
                assert(s[x] == s.subrange(a, a + text.len())[x - a]);
                assert(!is_key_stop(text[x - a]));
            }
            lemma_bare_key_to(s, a, s.len() as int);
        },
    }
    assert(key_with_colon(s, a) == Ok::<(Seq<char>, int), Fault>((Seq::empty(), a)));
    if has_at(s, a, seq!['|']) {
        assert(s.subrange(a, a + 1)[0] == '|');
    }
    if has_at(s, a, seq!['[']) {
        assert(s.subrange(a, a + 1)[0] == '[');
    }
    let filled = top.with_value(Tree::Primitive(p));
    assert(array_values(s, s.len() as int, filled) == Ok::<Frame, Fault>(filled));
    assert(array_values(s, a, top) == Ok::<Frame, Fault>(filled));
}

/// A line that is a dash, a space and an array of plain primitives without
/// colons on one line adds that array to the array.
proof fn lemma_item_line_array(st: Seq<Frame>, s: Seq<char>, i: int, d: nat, items: Seq<Tree>)
    requires
        0 <= i,
        plain_items(items),
        forall|x: int| 0 <= x < items.len() ==> calm_item(#[trigger] items[x]),
        s.len() == i + 4 + inline_items(items, items.len() as int).len(),
        s[i] == '-',
        s[i + 1] == ' ',
        has_at(
            s,
            i + 2,
            seq!['['] + inline_items(items, items.len() as int) + seq![']'],
        ),
    ensures
        array_line(st, s, i, d) == Ok::<Seq<Frame>, Fault>(
            replaced(st, st.last().with_value(Tree::Array(items))),
        ),
{
    let a = i + 2;
    let body = inline_items(items, items.len() as int);
    let head = seq!['['] + body + seq![']'];
    let top = st.last();
    lemma_inline_array_read(s, a, items);
    assert forall|x: int| 0 <= x < head.len() implies s[a + x] == head[x] by {
        assert(s.subrange(a, a + head.len())[x] == head[x]);
    }
    assert(s[a] == head[0]);
    lemma_item_mark(s, i);
    lemma_at_end(s);
    lemma_inline_calm(items, items.len() as int);
    assert forall|x: int| a <= x < s.len() implies #[trigger] s[x] != ':' by {
        assert(s[x] == head[x - a]);
        if 0 < x - a < head.len() - 1 {
            assert(head[x - a] == body[x - a - 1]);
            assert(body.contains(body[x - a - 1]));
        }
    }
    lemma_no_key(s, a);
    if has_at(s, a, seq!['|']) {
        assert(s.subrange(a, a + 1)[0] == '|');
    }
    let filled = top.with_value(Tree::Array(items));
    assert(array_values(s, s.len() as int, filled) == Ok::<Frame, Fault>(filled));
    assert(array_values(s, a, top) == Ok::<Frame, Fault>(filled));
}

/// A line that is a dash, a space and `|` opens a string under an array.
proof fn lemma_item_line_text(st: Seq<Frame>, s: Seq<char>, i: int, d: nat)
    requires
        0 <= i,
        s.len() == i + 3,
        s[i] == '-',
        s[i + 1] == ' ',
        s[i + 2] == '|',
    ensures
        array_line(st, s, i, d) == Ok::<Seq<Frame>, Fault>(st.push(Frame::text(d + 1))),
{
    let a = i + 2;
    lemma_item_mark(s, i);
    lemma_bar(s, a);
    assert forall|x: int| a <= x < s.len() implies #[trigger] s[x] != ':' by {}
    lemma_no_key(s, a);
}

/// The line with which the encoder begins an item is read, under an array,
/// as the beginning of that item.
proof fn lemma_item_line(
    st: Seq<Frame>,
    s: Seq<char>,
    i: int,
    d: nat,
    v: Tree,
    unit: Seq<char>,
    prefix: Seq<char>,
)
    requires
        0 <= i,
        calm_head(v),
        s.len() == i + item_mark(v).len() + layout(unit, prefix, v).head.len(),
        has_at(s, i, item_mark(v) + layout(unit, prefix, v).head),
    ensures
        array_line(st, s, i, d) == Ok::<Seq<Frame>, Fault>(item_begun(st, v, d)),
{
    let head = layout(unit, prefix, v).head;
    let rest = item_mark(v) + head;
    assert forall|x: int| 0 <= x < rest.len() implies s[i + x] == rest[x] by {
        assert(s.subrange(i, i + rest.len())[x] == rest[x]);
    }
    if is_block_array(v) {
        assert(rest =~= seq!['-', '-']);
        lemma_item_line_block(st, s, i, d);
    } else {
        assert(item_mark(v) =~= seq!['-', ' ']);
        assert(s[i] == rest[0]);
        assert(s[i + 1] == rest[1]);
        let a = i + 2;
        assert forall|x: int| 0 <= x < head.len() implies s.subrange(a, a + head.len())[x]
            == head[x] by {
            assert(s[i + 2 + x] == rest[2 + x]);
        }
        assert(s.subrange(a, a + head.len()) =~= head);
        match v {
            Tree::Object(entries) => {
                assert(head =~= Seq::<char>::empty());
                assert(rest =~= seq!['-', ' ']);
                lemma_item_line_open(st, s, i, d);
            },
            Tree::Primitive(p) => {
                if inline_text(p) is Some {
                    lemma_item_line_scalar(st, s, i, d, p);
                } else {
                    assert(head =~= seq!['|']);
                    assert(s[a] == rest[2]);
                    lemma_item_line_text(st, s, i, d);
                }
            },
            Tree::Array(items) => {
                lemma_item_line_array(st, s, i, d, items);
            },
        }
    }
}

/// The lines from the `n`th on are read as a text of their own.
proof fn lemma_run_from(state: State, lines: Seq<Seq<char>>, n: int)
    requires
        0 <= n <= lines.len(),
    ensures
        run(state, lines, n) == run(state, lines.subrange(n, lines.len() as int), 0),
    decreases lines.len() - n,
{
    let rest = lines.subrange(n, lines.len() as int);
    if n < lines.len() {
        assert(rest[0] == lines[n]);
        if let Ok(next) = step(state, lines[n]) {
            lemma_run_from(next, lines, n + 1);
            lemma_run_from(next, rest, 1);
            assert(rest.subrange(1, rest.len() as int) =~= lines.subrange(
                n + 1,
                lines.len() as int,
            ));
        }
    }
}

/// To read `a` and then `b` is to read `a`, and from the state that it
/// leaves, `b`.
proof fn lemma_run_append(state: State, a: Seq<Seq<char>>, b: Seq<Seq<char>>)
    ensures
        run(state, a + b, 0) == match run(state, a, 0) {
            Ok(mid) => run(mid, b, 0),
            Err(e) => Err(e),
        },
    decreases a.len(),
{
    if a.len() == 0 {
        assert(a + b =~= b);
    } else {
        let whole = a + b;
        assert(whole[0] == a[0]);
        if let Ok(next) = step(state, a[0]) {
            lemma_run_from(next, whole, 1);
            lemma_run_from(next, a, 1);
            let rest = a.subrange(1, a.len() as int);
            assert(whole.subrange(1, whole.len() as int) =~= rest + b);
            lemma_run_append(next, rest, b);
        }
    }
}

/// To read one line is to take one step.
proof fn lemma_run_one(state: State, line: Seq<char>)
    ensures
        run(state, seq![line], 0) == step(state, line),
{
    let lines = seq![line];
    assert(lines[0] == line);
    if let Ok(next) = step(state, line) {
        assert(run(next, lines, 1) == Ok::<State, Diagnostic>(next));
    }
}

/// To close the top frame leaves a well-formed stack whose top is no
/// string and no deeper than the top was.
proof fn lemma_folded_plain(stack: Seq<Frame>)
    requires
        stack_wf(stack),
        stack.len() >= 2,
    ensures
        stack_wf(folded(stack)),
        !(folded(stack).last().content is Text),
        folded(stack).last().indent <= stack.last().indent,
        folded(stack).last().indent == stack[stack.len() - 2].indent,
{
    lemma_folded(stack);
    assert(!(stack[stack.len() - 2].content is Text));
    assert(stack[stack.len() - 2].indent <= stack[stack.len() - 1].indent);
}

/// To close the frames deeper than `d` leaves a well-formed stack whose
/// top is no deeper than `d` and than the top was, and is no string unless
/// nothing was closed.
proof fn lemma_collapsed_plain(stack: Seq<Frame>, d: nat)
    requires
        stack_wf(stack),
    ensures
        stack_wf(collapsed(stack, d)),
        collapsed(stack, d).last().indent <= d,
        collapsed(stack, d).last().indent <= stack.last().indent,
        collapsed(stack, d) == stack || !(collapsed(stack, d).last().content is Text),
    decreases stack.len(),
{
    if stack.len() >= 2 && stack.last().indent > d {
        lemma_folded_plain(stack);
        lemma_collapsed_plain(folded(stack), d);
    }
}

/// To close the frames deeper than `d` and then those deeper than `e`,
/// where `e` is at most `d`, is to close those deeper than `e`.
proof fn lemma_collapsed_twice(stack: Seq<Frame>, d: nat, e: nat)
    requires
        e <= d,
    ensures
        collapsed(collapsed(stack, d), e) == collapsed(stack, e),
    decreases stack.len(),
{
    if stack.len() >= 2 && stack.last().indent > d {
        lemma_collapsed_twice(folded(stack), d, e);
    }
}

/// A line that begins with the white space of `d` levels and goes on with
/// a character that is no white space does not begin with the white space
/// of more levels.
proof fn lemma_not_deeper(u: Indention, d: nat, e: nat, r: Seq<char>)
    requires
        u.wf(),
        d < e,
        r.len() > 0,
        !is_white_space(r[0]),
    ensures
        !has_at(indent_run(u, d) + r, 0, indent_run(u, e)),
{
    let s = indent_run(u, d) + r;
    let p = indent_run(u, d).len() as int;
    let run = indent_run(u, e);
    match u {
        Indention::Tabs => {},
        Indention::Spaces(n) => {
            let m = n as nat;
            assert(d * m < e * m) by (nonlinear_arith)
                requires
                    d < e,
                    m >= 1,
            ;
        },
    }
    assert(p < run.len());
    assert(s[p] == r[0]);
    if has_at(s, 0, run) {
        assert(s.subrange(0, run.len() as int)[p] == run[p]);
    }
}

/// A line that the encoder writes at depth `d` is read at that depth,
/// under the frame that is on top once the deeper frames are closed.
proof fn lemma_line(state: State, u: Indention, d: nat, r: Seq<char>)
    requires
        u.wf(),
        stack_wf(state.stack),
        unit_allows(state.indention, u, d),
        state.stack.last().content is Text ==> state.indention == Some(u),
        collapsed(state.stack, d).last().indent == d,
        !(collapsed(state.stack, d).last().content is Text),
        r.len() > 0,
        !is_white_space(r[0]),
        r[0] != '#',
    ensures
        ({
            let s = indent_run(u, d) + r;
            let open = collapsed(state.stack, d);
            let read = if open.last().content is Object {
                object_line(open, s, indent_run(u, d).len() as int, d)
            } else {
                array_line(open, s, indent_run(u, d).len() as int, d)
            };
            step(state, s) == match read {
                Ok(stack) => Ok::<State, Diagnostic>(
                    State {
                        line_number: state.line_number + 1,
                        indention: unit_after(state.indention, u, d),
                        stack,
                    },
                ),
                Err(f) => Err::<State, Diagnostic>(report(f, state.line_number, s)),
            }
        }),
{
    let pre = indent_run(u, d);
    let s = pre + r;
    let top = state.stack.last();
    assert(s.subrange(0, pre.len() as int) =~= pre);
    assert(s[pre.len() as int] == r[0]);
    lemma_measured(state.indention, u, d, s);
    lemma_collapsed_plain(state.stack, d);
    if top.content is Text {
        assert(top.indent > d);
        assert(state.stack.len() >= 2);
        lemma_not_deeper(u, d, top.indent, r);
        lemma_folded_plain(state.stack);
        lemma_collapsed_plain(folded(state.stack), d);
        assert(collapsed(state.stack, d) == collapsed(folded(state.stack), d));
    }
}

/// The values that are read back as they were written, under any unit:
///
/// - `true`, `false`, `null`, plain numbers (see [`plain_number`]), plain
///   strings and strings that are written as blocks (see [`block_text`]);
/// - objects whose keys are plain and differ from each other, and whose
///   values are such values;
/// - arrays of plain primitives, which are written on one line;
/// - arrays that are written as blocks, whose items are such values; where
///   an item is an array on one line, none of its strings holds a colon.
pub open spec fn fits(t: Tree) -> bool
    decreases t,
{
    match t {
        Tree::Primitive(p) => fit_scalar(p),
        Tree::Object(entries) => distinct_keys(entries) && forall|i: int|
            0 <= i < entries.len() ==> plain_key((#[trigger] entries[i]).0) && fits(entries[i].1),
        Tree::Array(items) => if all_inline(items) {
            plain_items(items)
        } else {
            forall|i: int|
                0 <= i < items.len() ==> calm_head(#[trigger] items[i]) && fits(items[i])
        },
    }
}

/// The frame `f` after the first `n` of `entries` have been given to it.
pub open spec fn gathered(f: Frame, entries: Seq<(Seq<char>, Tree)>, n: nat) -> Frame
    decreases n,
{
    if n == 0 || n > entries.len() {
        f
    } else {
        gathered(f, entries, (n - 1) as nat).with_entry(entries[n - 1].0, entries[n - 1].1)
    }
}

/// The frame `f` after the first `n` of `items` have been given to it.
pub open spec fn filled(f: Frame, items: Seq<Tree>, n: nat) -> Frame
    decreases n,
{
    if n == 0 || n > items.len() {
        f
    } else {
        filled(f, items, (n - 1) as nat).with_value(items[n - 1])
    }
}

/// An object frame that gathers entries whose keys differ holds them in
/// their order.
proof fn lemma_gathered(f: Frame, entries: Seq<(Seq<char>, Tree)>, n: nat)
    requires
        f.content is Object,
        n <= entries.len(),
    ensures
        gathered(f, entries, n).indent == f.indent,
        gathered(f, entries, n).content is Object,
        distinct_keys(entries) && f.content->Object_entries.len() == 0 ==> gathered(
            f,
            entries,
            n,
        ).content->Object_entries == entries.take(n as int),
    decreases n,
{
    if n > 0 {
        lemma_gathered(f, entries, (n - 1) as nat);
        let before = gathered(f, entries, (n - 1) as nat);
        let k = entries[n - 1].0;
        let v = entries[n - 1].1;
        if distinct_keys(entries) && f.content->Object_entries.len() == 0 {
            let held = entries.take(n - 1);
            assert(before.content->Object_entries == held);
            assert forall|j: int| 0 <= j < held.len() implies (#[trigger] held[j]).0 != k by {
                assert(held[j] == entries[j]);
            }
            lemma_absent(held, k, 0);
            assert(held.push((k, v)) =~= entries.take(n as int));
        }
    } else {
        if f.content->Object_entries.len() == 0 {
            assert(f.content->Object_entries =~= entries.take(0));
        }
    }
}

/// A key that no entry has is found at no position.
proof fn lemma_absent(entries: Seq<(Seq<char>, Tree)>, key: Seq<char>, from: int)
    requires
        0 <= from <= entries.len(),
        forall|j: int| 0 <= j < entries.len() ==> (#[trigger] entries[j]).0 != key,
    ensures
        key_position(entries, key, from) == entries.len(),
    decreases entries.len() - from,
{
    if from < entries.len() {
        lemma_absent(entries, key, from + 1);
    }
}

/// An array frame that is filled with items holds them in their order.
proof fn lemma_filled(f: Frame, items: Seq<Tree>, n: nat)
    requires
        f.content is Array,
        n <= items.len(),
    ensures
        filled(f, items, n).indent == f.indent,
        filled(f, items, n).content is Array,
        filled(f, items, n).content->Array_items == f.content->Array_items + items.take(n as int),
    decreases n,
{
    if n > 0 {
        lemma_filled(f, items, (n - 1) as nat);
        assert((f.content->Array_items + items.take(n - 1)).push(items[n - 1]) =~= f.content->Array_items
            + items.take(n as int));
    } else {
        assert(f.content->Array_items =~= f.content->Array_items + items.take(0));
    }
}

/// The string frame `f` after the first `n` of `pieces` have been added to
/// its lines.
pub open spec fn written(f: Frame, pieces: Seq<Seq<char>>, n: nat) -> Frame
    decreases n,
{
    if n == 0 || n > pieces.len() {
        f
    } else {
        written(f, pieces, (n - 1) as nat).with_line(pieces[n - 1])
    }
}

/// A string frame that is written to holds its lines and then the pieces.
proof fn lemma_written(f: Frame, pieces: Seq<Seq<char>>, n: nat)
    requires
        f.content is Text,
        n <= pieces.len(),
    ensures
        written(f, pieces, n).indent == f.indent,
        written(f, pieces, n).content is Text,
        written(f, pieces, n).content->Text_lines == f.content->Text_lines + pieces.take(n as int),
    decreases n,
{
    if n > 0 {
        lemma_written(f, pieces, (n - 1) as nat);
        assert((f.content->Text_lines + pieces.take(n - 1)).push(pieces[n - 1]) =~= f.content->Text_lines
            + pieces.take(n as int));
    } else {
        assert(f.content->Text_lines =~= f.content->Text_lines + pieces.take(0));
    }
}

/// The state after the first `n` lines of a string have been read into
/// the string that is open on top of the stack.
pub open spec fn text_state(state: State, u: Indention, pieces: Seq<Seq<char>>, n: nat) -> State {
    State {
        line_number: state.line_number + n,
        indention: if n > 0 {
            Some(u)
        } else {
            state.indention
        },
        stack: replaced(state.stack, written(state.stack.last(), pieces, n)),
    }
}

/// A line of a string that the encoder wrote at depth `d` is read into the
/// string that is open at that depth. While the unit is not known, the line
/// fixes it, where its text does not begin with a space or a tab.
proof fn lemma_text_line(state: State, u: Indention, d: nat, piece: Seq<char>)
    requires
        u.wf(),
        state.stack.len() >= 1,
        state.stack.last().content is Text,
        state.stack.last().indent == d,
        state.indention == Some(u) || (state.indention is None && d == 1 && (piece.len() > 0
            ==> piece[0] != ' ' && piece[0] != '\t')),
    ensures
        step(state, indent_run(u, d) + piece) == Ok::<State, Diagnostic>(
            State {
                line_number: state.line_number + 1,
                indention: Some(u),
                stack: replaced(state.stack, state.stack.last().with_line(piece)),
            },
        ),
{
    let pre = indent_run(u, d);
    let line = pre + piece;
    assert(line.subrange(0, pre.len() as int) =~= pre);
    assert(line.subrange(pre.len() as int, line.len() as int) =~= piece);
    if state.indention is None {
        match u {
            Indention::Tabs => {
                assert(pre =~= seq!['\t']);
                assert(line.subrange(0, 1) =~= seq!['\t']);
                assert(line.subrange(1, line.len() as int) =~= piece);
            },
            Indention::Spaces(c) => {
                let w = c as nat;
                assert(1 * w == w) by (nonlinear_arith);
                assert(pre.len() == w);
                assert(line[0] == pre[0]);
                if has_at(line, 0, seq!['\t']) {
                    assert(line.subrange(0, 1)[0] == '\t');
                }
                assert forall|x: int| 0 <= x < w implies #[trigger] line[x] == ' ' by {
                    assert(line[x] == pre[x]);
                }
                if piece.len() > 0 {
                    assert(line[w as int] == piece[0]);
                }
                lemma_blank_to(line, ' ', '\t', 0, w as int);
            },
        }
    }
}

/// A string frame in place of the string frame on top keeps the stack well
/// formed, where it has the same depth.
proof fn lemma_replaced_text(stack: Seq<Frame>, top: Frame)
    requires
        stack_wf(stack),
        stack.last().content is Text,
        top.indent == stack.last().indent,
        top.content is Text,
    ensures
        stack_wf(replaced(stack, top)),
{
    let next = replaced(stack, top);
    assert forall|i: int, j: int| 0 <= i <= j < next.len() implies (#[trigger] next[i]).indent <= (
    #[trigger] next[j]).indent by {
        assert(stack[i].indent <= stack[j].indent);
    }
    assert forall|i: int| 0 <= i < next.len() - 1 implies !((#[trigger] next[i]).content is Text) by {
        assert(next[i] == stack[i]);
    }
    assert forall|i: int| 1 <= i < next.len() implies (#[trigger] next[i]).indent >= 1 by {
        assert(next[i].indent == stack[i].indent);
    }
}

/// The lines of a string that the encoder wrote at depth `d` are read into
/// the string that is open at that depth, one by one.
proof fn lemma_text_lines(
    state: State,
    u: Indention,
    d: nat,
    pieces: Seq<Seq<char>>,
    n: nat,
)
    requires
        u.wf(),
        stack_wf(state.stack),
        state.stack.last().content is Text,
        state.stack.last().indent == d,
        state.indention == Some(u) || (state.indention is None && d == 1 && pieces.len() > 0 && (
        pieces[0].len() > 0 ==> pieces[0][0] != ' ' && pieces[0][0] != '\t')),
        n <= pieces.len(),
    ensures
        run(state, indented(indent_run(u, d), pieces).take(n as int), 0) == Ok::<
            State,
            Diagnostic,
        >(text_state(state, u, pieces, n)),
        stack_wf(text_state(state, u, pieces, n).stack),
    decreases n,
{
    let pre = indent_run(u, d);
    let all = indented(pre, pieces);
    let top = state.stack.last();
    lemma_written(top, pieces, n);
    lemma_replaced_text(state.stack, written(top, pieces, n));
    if n == 0 {
        assert(all.take(0) =~= Seq::<Seq<char>>::empty());
        assert(replaced(state.stack, top) =~= state.stack);
    } else {
        let m = (n - 1) as nat;
        lemma_text_lines(state, u, d, pieces, m);
        lemma_written(top, pieces, m);
        let mid = text_state(state, u, pieces, m);
        let piece = pieces[n - 1];
        let line = pre + piece;
        assert(all[n - 1] == line);
        assert(all.take(n as int) =~= all.take(m as int) + seq![line]);
        lemma_run_append(state, all.take(m as int), seq![line]);
        lemma_run_one(mid, line);
        let held = written(top, pieces, m);
        assert(mid.stack.last() == held);
        lemma_text_line(mid, u, d, piece);
        assert(replaced(mid.stack, held.with_line(piece)) =~= replaced(
            state.stack,
            written(top, pieces, n),
        ));
    }
}

/// The lines of a text without carriage return that does not end with a
/// line feed, joined by line feeds, are that text.
proof fn lemma_join_of_split(t: Seq<char>, i: int)
    requires
        0 <= i < t.len(),
        !t.contains('\r'),
        t.last() != '\n',
    ensures
        join_lines(lines_from(t, i)) == t.subrange(i, t.len() as int),
        lines_from(t, i).len() >= 1,
        lines_from(t, i)[0] == t.subrange(i, line_end(t, i)),
    decreases t.len() - i,
{
    lemma_line_end(t, i);
    let e = line_end(t, i);
    let piece = t.subrange(i, e);
    if piece.len() > 0 && piece.last() == '\r' {
        assert(t[e - 1] == '\r');
        assert(t.contains('\r'));
    }
    assert(strip_cr(piece) == piece);
    if e < t.len() {
        assert(e + 1 < t.len());
        lemma_join_of_split(t, e + 1);
        let rest = lines_from(t, e + 1);
        let lines = seq![piece] + rest;
        assert(lines_from(t, i) == lines);
        lemma_join_front(lines);
        assert(lines.drop_first() =~= rest);
        assert(join_lines(lines) =~= t.subrange(i, t.len() as int));
    } else {
        assert(lines_from(t, i) =~= seq![piece]);
    }
}

/// The lines of a string that was written as a block are read into the
/// string that is open, empty, on top of the stack, and make that string.
proof fn lemma_block_read(state: State, u: Indention, d: nat, t: Seq<char>)
    requires
        u.wf(),
        stack_wf(state.stack),
        state.stack.last() == Frame::text(d),
        unit_allows(state.indention, u, d),
        d >= 1,
        block_text(t),
    ensures
        ({
            let lines = indented(indent_run(u, d), split_lines(t));
            &&& lines.len() >= 1
            &&& run(state, lines, 0) matches Ok(after) && after.line_number == state.line_number
                + lines.len() && after.indention == Some(u) && stack_wf(after.stack)
                && after.stack.len() == state.stack.len() && after.stack.drop_last()
                == state.stack.drop_last() && after.stack.last().indent == d
                && after.stack.last().value() == Tree::Primitive(Scalar::Text(t))
        }),
{
    let pieces = split_lines(t);
    let n = pieces.len();
    let lines = indented(indent_run(u, d), pieces);
    lemma_join_of_split(t, 0);
    lemma_line_end(t, 0);
    assert(t.subrange(0, t.len() as int) =~= t);
    if pieces[0].len() > 0 {
        assert(pieces[0][0] == t[0]);
    }
    lemma_text_lines(state, u, d, pieces, n);
    assert(lines.take(n as int) =~= lines);
    let fresh = Frame::text(d);
    lemma_written(fresh, pieces, n);
    let full = written(fresh, pieces, n);
    assert(Seq::<Seq<char>>::empty() + pieces.take(n as int) =~= pieces);
    let after = text_state(state, u, pieces, n);
    assert(after.stack.last() == full);
    assert(after.stack.drop_last() =~= state.stack.drop_last());
}

/// The state is ready for the lines of a construct at depth `d`, written
/// under the unit `u`: the unit allows the depth and is known where a string
/// is open, and once the deeper frames are closed, the frame on top is at
/// depth `d`.
#[verifier::opaque]
pub open spec fn ready(state: State, u: Indention, d: nat) -> bool {
    &&& u.wf()
    &&& stack_wf(state.stack)
    &&& unit_allows(state.indention, u, d)
    &&& state.stack.last().content is Text ==> state.indention == Some(u)
    &&& collapsed(state.stack, d).last().indent == d
}

/// Under a ready state, the stack with its deeper frames closed is well
/// formed.
proof fn lemma_ready(state: State, u: Indention, d: nat)
    requires
        ready(state, u, d),
    ensures
        u.wf(),
        collapsed(state.stack, d).len() >= 1,
        stack_wf(collapsed(state.stack, d)),
        collapsed(state.stack, d).last().indent == d,
{
    reveal(ready);
    lemma_collapsed_plain(state.stack, d);
}

/// After `count` lines, `after` stands where `before` stood, with `top` in
/// place of the frame at depth `d`.
pub open spec fn settled(
    before: State,
    after: State,
    u: Indention,
    d: nat,
    top: Frame,
    count: nat,
) -> bool {
    &&& ready(after, u, d)
    &&& after.line_number == before.line_number + count
    &&& collapsed(after.stack, d) == replaced(collapsed(before.stack, d), top)
}

/// The line of an entry, as the encoder writes it.
pub open spec fn entry_line(u: Indention, d: nat, k: Seq<char>, v: Tree) -> Seq<char> {
    indent_run(u, d) + k + seq![':'] + entry_gap(v) + layout(
        u.unit(),
        indent_run(u, d) + u.unit(),
        v,
    ).head
}

/// The line of an item, as the encoder writes it.
pub open spec fn item_line(u: Indention, d: nat, v: Tree) -> Seq<char> {
    indent_run(u, d) + item_mark(v) + layout(u.unit(), indent_run(u, d) + u.unit(), v).head
}

/// The state after the line that begins the entry of `k` with the value
/// `v` has been read at depth `d`.
pub open spec fn entry_state(state: State, u: Indention, d: nat, k: Seq<char>, v: Tree) -> State {
    State {
        line_number: state.line_number + 1,
        indention: unit_after(state.indention, u, d),
        stack: entry_begun(collapsed(state.stack, d), k, v, d),
    }
}

/// The line of an entry is read as the beginning of that entry.
#[verifier::rlimit(50)]
proof fn lemma_entry_first(state: State, u: Indention, d: nat, k: Seq<char>, v: Tree)
    requires
        ready(state, u, d),
        collapsed(state.stack, d).last().content is Object,
        plain_key(k),
        fits(v),
    ensures
        step(state, entry_line(u, d, k, v)) == Ok::<State, Diagnostic>(
            entry_state(state, u, d, k, v),
        ),
        stack_wf(entry_state(state, u, d, k, v).stack),
        unit_allows(entry_state(state, u, d, k, v).indention, u, d + 1),
        unit_allows(entry_state(state, u, d, k, v).indention, u, d),
{
    reveal(ready);
    let pre = indent_run(u, d);
    let deeper = pre + u.unit();
    let inner = layout(u.unit(), deeper, v);
    let r = k + seq![':'] + entry_gap(v) + inner.head;
    let line = entry_line(u, d, k, v);
    let open = collapsed(state.stack, d);
    let top = open.last();
    assert(line =~= pre + r);
    lemma_collapsed_plain(state.stack, d);
    assert(r[0] == if k.len() > 0 {
        k[0]
    } else {
        ':'
    });
    lemma_line(state, u, d, r);
    assert(line.subrange(pre.len() as int, line.len() as int) =~= r);
    lemma_entry_line(open, line, pre.len() as int, d, k, v, u.unit(), deeper);
    lemma_begun(open, top.with_key(k), d);
    lemma_begun(open, top.with_entry(k, v), d);
}

/// A value that is written on the line that begins it.
pub open spec fn on_one_line(v: Tree) -> bool {
    match v {
        Tree::Primitive(p) => inline_text(p) is Some,
        Tree::Object(entries) => false,
        Tree::Array(items) => all_inline(items),
    }
}

/// The frame that is opened for a value that is not written on one line.
pub open spec fn fresh_frame(v: Tree, d: nat) -> Frame {
    match v {
        Tree::Primitive(p) => Frame::text(d),
        Tree::Object(entries) => Frame::object(d, Seq::empty()),
        Tree::Array(items) => Frame::array(d),
    }
}

/// The lines that follow the beginning of a value are read into the frame
/// that was opened for it at depth `d`, and make that value.
#[verifier::rlimit(50)]
proof fn lemma_nested(state: State, u: Indention, d: nat, v: Tree)
    requires
        u.wf(),
        d >= 1,
        stack_wf(state.stack),
        state.stack.len() >= 2,
        state.stack.last() == fresh_frame(v, d),
        unit_allows(state.indention, u, d),
        fits(v),
        !on_one_line(v),
    ensures
        ({
            let tail = layout(u.unit(), indent_run(u, d), v).tail;
            run(state, tail, 0) matches Ok(after) && after.line_number == state.line_number
                + tail.len() && stack_wf(after.stack) && unit_allows(after.indention, u, d) && (
            after.stack.last().content is Text ==> after.indention == Some(u)) && collapsed(
                after.stack,
                d,
            ).len() == state.stack.len() && collapsed(after.stack, d).drop_last()
                == state.stack.drop_last() && collapsed(after.stack, d).last().indent == d
                && collapsed(after.stack, d).last().value() == v
        }),
    decreases v, 0nat,
{
    let fresh = fresh_frame(v, d);
    let tail = layout(u.unit(), indent_run(u, d), v).tail;
    assert(collapsed(state.stack, d) == state.stack);
    match v {
        Tree::Object(entries) => {
            assert(ready(state, u, d)) by {
                reveal(ready);
            }
            lemma_entries(state, u, d, entries, entries.len());
            let after = run(state, tail, 0)->Ok_0;
            lemma_gathered(fresh, entries, entries.len());
            assert(entries.take(entries.len() as int) =~= entries);
            assert(ready(after, u, d));
            reveal(ready);
        },
        Tree::Array(items) => {
            assert(ready(state, u, d)) by {
                reveal(ready);
            }
            lemma_items(state, u, d, items, items.len());
            let after = run(state, tail, 0)->Ok_0;
            lemma_filled(fresh, items, items.len());
            assert(Seq::<Tree>::empty() + items.take(items.len() as int) =~= items);
            assert(ready(after, u, d));
            reveal(ready);
        },
        Tree::Primitive(p) => {
            let t = p->Text_0;
            lemma_block_read(state, u, d, t);
            let after = run(state, tail, 0)->Ok_0;
            assert(collapsed(after.stack, d) == after.stack);
        },
    }
}

/// Where a frame one level deeper than `d` stands on a stack whose top is
/// at depth `d`, to close the frames deeper than `d` gives its value to that
/// top.
proof fn lemma_closed_onto(base: Seq<Frame>, st: Seq<Frame>, d: nat)
    requires
        base.len() >= 1,
        base.last().indent == d,
        st.len() == base.len() + 1,
        st.drop_last() == base,
        st.last().indent == d + 1,
    ensures
        collapsed(st, d) == replaced(base, base.last().with_value(st.last().value())),
{
    let f = folded(st);
    assert(st[st.len() - 2] == base.last());
    assert(f =~= replaced(base, base.last().with_value(st.last().value())));
    assert(base.last().with_value(st.last().value()).indent == d);
    assert(collapsed(f, d) == f);
}

/// The lines of an entry are read as that entry.
#[verifier::rlimit(50)]
proof fn lemma_entry(state: State, u: Indention, d: nat, k: Seq<char>, v: Tree)
    requires
        ready(state, u, d),
        collapsed(state.stack, d).last().content is Object,
        plain_key(k),
        fits(v),
    ensures
        ({
            let tail = layout(u.unit(), indent_run(u, d) + u.unit(), v).tail;
            let lines = seq![entry_line(u, d, k, v)] + tail;
            run(state, lines, 0) matches Ok(after) && settled(
                state,
                after,
                u,
                d,
                collapsed(state.stack, d).last().with_entry(k, v),
                lines.len(),
            )
        }),
    decreases v, 1nat,
{
    let inner = layout(u.unit(), indent_run(u, d) + u.unit(), v);
    let tail = inner.tail;
    let line = entry_line(u, d, k, v);
    let open = collapsed(state.stack, d);
    let top = open.last();
    lemma_ready(state, u, d);
    lemma_indent_deeper(u, d);
    lemma_entry_first(state, u, d, k, v);
    let first = entry_state(state, u, d, k, v);
    let begun = first.stack;
    lemma_run_one(state, line);
    lemma_run_append(state, seq![line], tail);
    let keyed = top.with_key(k);
    if on_one_line(v) {
        assert(tail =~= Seq::<Seq<char>>::empty());
        assert(seq![line] + tail =~= seq![line]);
        assert(begun == replaced(open, top.with_entry(k, v)));
        assert(collapsed(begun, d) == begun);
        assert(ready(first, u, d)) by {
            reveal(ready);
        }
    } else {
        let base = replaced(open, keyed);
        assert(begun == base.push(fresh_frame(v, d + 1)));
        assert(begun.drop_last() =~= base);
        lemma_nested(first, u, d + 1, v);
        let after = run(first, tail, 0)->Ok_0;
        lemma_collapsed_twice(after.stack, d + 1, d);
        lemma_closed_onto(base, collapsed(after.stack, d + 1), d);
        assert(replaced(base, keyed.with_value(v)) =~= replaced(open, top.with_entry(k, v)));
        assert(ready(after, u, d)) by {
            reveal(ready);
        }
    }
}

/// A frame at the depth of the top frame, and of its kind where that is
/// the root, keeps the stack well formed in its place; so does a frame one
/// level deeper above it.
proof fn lemma_begun(open: Seq<Frame>, top: Frame, d: nat)
    requires
        stack_wf(open),
        open.last().indent == d,
        top.indent == d,
        !(top.content is Text),
        open.len() == 1 ==> top.content is Object,
    ensures
        stack_wf(replaced(open, top)),
        stack_wf(replaced(open, top).push(Frame::object(d + 1, Seq::empty()))),
        stack_wf(replaced(open, top).push(Frame::array(d + 1))),
        stack_wf(replaced(open, top).push(Frame::text(d + 1))),
{
    let n = open.len() - 1;
    let base = replaced(open, top);
    assert forall|i: int| 0 <= i < base.len() implies (i < n ==> #[trigger] base[i] == open[i]) && (
    i == n ==> base[i] == top) by {}
    assert forall|i: int, j: int| 0 <= i <= j < base.len() implies (#[trigger] base[i]).indent <= (
    #[trigger] base[j]).indent by {
        assert(open[i].indent <= open[j].indent);
    }
    assert(stack_wf(base));
    lemma_pushed(base, Frame::object(d + 1, Seq::empty()));
    lemma_pushed(base, Frame::array(d + 1));
    lemma_pushed(base, Frame::text(d + 1));
}

/// A deeper frame above a top frame that is no string keeps the stack well
/// formed.
proof fn lemma_pushed(base: Seq<Frame>, f: Frame)
    requires
        stack_wf(base),
        !(base.last().content is Text),
        f.indent > base.last().indent,
    ensures
        stack_wf(base.push(f)),
{
    let a = base.push(f);
    let n = base.len() - 1;
    assert forall|i: int, j: int| 0 <= i <= j < a.len() implies (#[trigger] a[i]).indent <= (
    #[trigger] a[j]).indent by {
        if j < base.len() {
            assert(base[i].indent <= base[j].indent);
        } else if i < base.len() {
            assert(base[i].indent <= base[n].indent);
        }
    }
}

/// The lines of the first `n` entries of an object are read as these
/// entries.
proof fn lemma_entries(
    state: State,
    u: Indention,
    d: nat,
    entries: Seq<(Seq<char>, Tree)>,
    n: nat,
)
    requires
        ready(state, u, d),
        collapsed(state.stack, d).last().content is Object,
        n <= entries.len(),
        forall|i: int|
            0 <= i < entries.len() ==> plain_key((#[trigger] entries[i]).0) && fits(entries[i].1),
    ensures
        ({
            let lines = entry_lines(u.unit(), indent_run(u, d), entries, n);
            run(state, lines, 0) matches Ok(after) && settled(
                state,
                after,
                u,
                d,
                gathered(collapsed(state.stack, d).last(), entries, n),
                lines.len(),
            )
        }),
    decreases entries, n,
{
    let open = collapsed(state.stack, d);
    lemma_ready(state, u, d);
    if n == 0 {
        assert(replaced(open, open.last()) =~= open);
    } else {
        let m = (n - 1) as nat;
        lemma_entries(state, u, d, entries, m);
        let done = entry_lines(u.unit(), indent_run(u, d), entries, m);
        let mid = run(state, done, 0)->Ok_0;
        let k = entries[n - 1].0;
        let v = entries[n - 1].1;
        let inner = layout(u.unit(), indent_run(u, d) + u.unit(), v);
        let more = seq![entry_line(u, d, k, v)] + inner.tail;
        let lines = entry_lines(u.unit(), indent_run(u, d), entries, n);
        assert(lines =~= done + more);
        lemma_run_append(state, done, more);
        let held = gathered(open.last(), entries, m);
        lemma_gathered(open.last(), entries, m);
        assert(collapsed(mid.stack, d).last() == held);
        assert(plain_key(entries[n - 1].0) && fits(entries[n - 1].1));
        lemma_entry(mid, u, d, k, v);
        let after = run(mid, more, 0)->Ok_0;
        assert(replaced(replaced(open, held), held.with_entry(k, v)) =~= replaced(
            open,
            held.with_entry(k, v),
        ));
    }
}

/// The state after the line that begins the item `v` has been read at
/// depth `d`.
pub open spec fn item_state(state: State, u: Indention, d: nat, v: Tree) -> State {
    State {
        line_number: state.line_number + 1,
        indention: unit_after(state.indention, u, d),
        stack: item_begun(collapsed(state.stack, d), v, d),
    }
}

/// The line of an item is read as the beginning of that item.
#[verifier::rlimit(50)]
proof fn lemma_item_first(state: State, u: Indention, d: nat, v: Tree)
    requires
        ready(state, u, d),
        collapsed(state.stack, d).last().content is Array,
        calm_head(v),
        fits(v),
    ensures
        step(state, item_line(u, d, v)) == Ok::<State, Diagnostic>(item_state(state, u, d, v)),
        stack_wf(item_state(state, u, d, v).stack),
        unit_allows(item_state(state, u, d, v).indention, u, d + 1),
        unit_allows(item_state(state, u, d, v).indention, u, d),
{
    reveal(ready);
    let pre = indent_run(u, d);
    let deeper = pre + u.unit();
    let inner = layout(u.unit(), deeper, v);
    let r = item_mark(v) + inner.head;
    let line = item_line(u, d, v);
    let open = collapsed(state.stack, d);
    let top = open.last();
    assert(line =~= pre + r);
    lemma_collapsed_plain(state.stack, d);
    assert(r[0] == '-');
    lemma_line(state, u, d, r);
    assert(line.subrange(pre.len() as int, line.len() as int) =~= r);
    lemma_item_line(open, line, pre.len() as int, d, v, u.unit(), deeper);
    assert(replaced(open, top) =~= open);
    assert(open.len() > 1);
    lemma_begun(open, top, d);
    lemma_begun(open, top.with_value(v), d);
}

/// The lines of an item are read as that item.
#[verifier::rlimit(50)]
proof fn lemma_item(state: State, u: Indention, d: nat, v: Tree)
    requires
        ready(state, u, d),
        collapsed(state.stack, d).last().content is Array,
        calm_head(v),
        fits(v),
    ensures
        ({
            let tail = layout(u.unit(), indent_run(u, d) + u.unit(), v).tail;
            let lines = seq![item_line(u, d, v)] + tail;
            run(state, lines, 0) matches Ok(after) && settled(
                state,
                after,
                u,
                d,
                collapsed(state.stack, d).last().with_value(v),
                lines.len(),
            )
        }),
    decreases v, 1nat,
{
    let inner = layout(u.unit(), indent_run(u, d) + u.unit(), v);
    let tail = inner.tail;
    let line = item_line(u, d, v);
    let open = collapsed(state.stack, d);
    let top = open.last();
    lemma_ready(state, u, d);
    lemma_indent_deeper(u, d);
    lemma_item_first(state, u, d, v);
    let first = item_state(state, u, d, v);
    let begun = first.stack;
    lemma_run_one(state, line);
    lemma_run_append(state, seq![line], tail);
    if on_one_line(v) {
        assert(tail =~= Seq::<Seq<char>>::empty());
        assert(seq![line] + tail =~= seq![line]);
        assert(begun == replaced(open, top.with_value(v)));
        assert(collapsed(begun, d) == begun);
        assert(ready(first, u, d)) by {
            reveal(ready);
        }
    } else {
        assert(begun == open.push(fresh_frame(v, d + 1)));
        assert(begun.drop_last() =~= open);
        lemma_nested(first, u, d + 1, v);
        let after = run(first, tail, 0)->Ok_0;
        lemma_collapsed_twice(after.stack, d + 1, d);
        lemma_closed_onto(open, collapsed(after.stack, d + 1), d);
        assert(ready(after, u, d)) by {
            reveal(ready);
        }
    }
}

/// The lines of the first `n` items of a block array are read as these
/// items.
proof fn lemma_items(state: State, u: Indention, d: nat, items: Seq<Tree>, n: nat)
    requires
        ready(state, u, d),
        collapsed(state.stack, d).last().content is Array,
        n <= items.len(),
        forall|i: int| 0 <= i < items.len() ==> calm_head(#[trigger] items[i]) && fits(items[i]),
    ensures
        ({
            let lines = item_lines(u.unit(), indent_run(u, d), items, n);
            run(state, lines, 0) matches Ok(after) && settled(
                state,
                after,
                u,
                d,
                filled(collapsed(state.stack, d).last(), items, n),
                lines.len(),
            )
        }),
    decreases items, n,
{
    let open = collapsed(state.stack, d);
    lemma_ready(state, u, d);
    if n == 0 {
        assert(replaced(open, open.last()) =~= open);
    } else {
        let m = (n - 1) as nat;
        lemma_items(state, u, d, items, m);
        let done = item_lines(u.unit(), indent_run(u, d), items, m);
        let mid = run(state, done, 0)->Ok_0;
        let v = items[n - 1];
        let inner = layout(u.unit(), indent_run(u, d) + u.unit(), v);
        let more = seq![item_line(u, d, v)] + inner.tail;
        let lines = item_lines(u.unit(), indent_run(u, d), items, n);
        assert(lines =~= done + more);
        lemma_run_append(state, done, more);
        let held = filled(open.last(), items, m);
        lemma_filled(open.last(), items, m);
        assert(collapsed(mid.stack, d).last() == held);
        assert(calm_head(items[n - 1]) && fits(items[n - 1]));
        lemma_item(mid, u, d, v);
        assert(replaced(replaced(open, held), held.with_value(v)) =~= replaced(
            open,
            held.with_value(v),
        ));
    }
}

/// A line that the text of a document gives back as it is: it is not
/// empty, holds no line feed and does not end with a carriage return.
pub open spec fn clean(line: Seq<char>) -> bool {
    line.len() > 0 && !line.contains('\n') && line.last() != '\r'
}

/// Every line is clean.
pub open spec fn all_clean(lines: Seq<Seq<char>>) -> bool {
    forall|i: int| 0 <= i < lines.len() ==> clean(#[trigger] lines[i])
}

/// A text of tabs and spaces only.
pub open spec fn blank(t: Seq<char>) -> bool {
    forall|i: int| 0 <= i < t.len() ==> #[trigger] t[i] == ' ' || t[i] == '\t'
}

/// A text without line feed that does not end with a carriage return.
pub open spec fn calm_text(t: Seq<char>) -> bool {
    !t.contains('\n') && (t.len() > 0 ==> t.last() != '\r')
}

/// The text of a plain primitive holds no line feed, and ends with
/// neither a carriage return nor white space.
proof fn lemma_scalar_text(p: Scalar)
    requires
        plain_scalar(p),
    ensures
        !inline_text(p)->0.contains('\n'),
        inline_text(p)->0.len() > 0,
        inline_text(p)->0.last() != '\r',
        inline_text(p) is Some,
{
    reveal_strlit("true");
    reveal_strlit("false");
    reveal_strlit("null");
    let text = inline_text(p)->0;
    if let Scalar::Number(m) = p {
        lemma_decimal_chars(m);
        assert(m[m.len() - 1] == '-' || is_digit(m[m.len() - 1]) || m[m.len() - 1] == '.');
    }
    if text.contains('\n') {
        let j = choose|j: int| 0 <= j < text.len() && text[j] == '\n';
        match p {
            Scalar::Text(x) => {
                assert(text == seq!['\''] + x + seq!['\'']);
                assert(x[j - 1] == '\n');
            },
            Scalar::Number(m) => {
                assert(m[j] == '-' || is_digit(m[j]) || m[j] == '.');
            },
            _ => {},
        }
    }
}

/// The text of an array of plain primitives on one line holds no line
/// feed.
proof fn lemma_inline_one_line(items: Seq<Tree>, n: int)
    requires
        0 <= n <= items.len(),
        plain_items(items),
    ensures
        !inline_items(items, n).contains('\n'),
    decreases n,
{
    let whole = inline_items(items, n);
    if n > 0 {
        lemma_inline_one_line(items, n - 1);
        let before = inline_items(items, n - 1);
        let text = item_text(items[n - 1]);
        assert(plain_item(items[n - 1]));
        lemma_scalar_text(items[n - 1]->Primitive_0);
        if whole.contains('\n') {
            let j = choose|j: int| 0 <= j < whole.len() && whole[j] == '\n';
            if n == 1 {
                assert(text[j] == '\n');
            } else {
                assert(whole == before + seq![' '] + text);
                if j < before.len() {
                    assert(before[j] == '\n');
                } else if j > before.len() {
                    assert(text[j - before.len() - 1] == '\n');
                }
            }
        }
    }
}

/// The head of a value that fits is calm.
proof fn lemma_head_calm(unit: Seq<char>, prefix: Seq<char>, v: Tree)
    requires
        fits(v),
    ensures
        calm_text(layout(unit, prefix, v).head),
{
    let head = layout(unit, prefix, v).head;
    match v {
        Tree::Primitive(p) => {
            if inline_text(p) is Some {
                lemma_scalar_text(p);
            } else {
                assert(head == seq!['|']);
                if head.contains('\n') {
                    let j = choose|j: int| 0 <= j < head.len() && head[j] == '\n';
                }
            }
        },
        Tree::Object(entries) => {},
        Tree::Array(items) => {
            if all_inline(items) {
                let body = inline_items(items, items.len() as int);
                lemma_inline_one_line(items, items.len() as int);
                assert(head == seq!['['] + body + seq![']']);
                if head.contains('\n') {
                    let j = choose|j: int| 0 <= j < head.len() && head[j] == '\n';
                    assert(body[j - 1] == '\n');
                }
            } else {
                assert(head == seq!['-', '-']);
                if head.contains('\n') {
                    let j = choose|j: int| 0 <= j < head.len() && head[j] == '\n';
                }
            }
        },
    }
}

/// A blank text, a text without white space, a mark, and a calm text make
/// a clean line, where the mark is not empty and ends with neither a line
/// feed nor a carriage return.
proof fn lemma_line_clean(pre: Seq<char>, k: Seq<char>, mark: Seq<char>, head: Seq<char>)
    requires
        blank(pre),
        forall|i: int| 0 <= i < k.len() ==> !is_white_space(#[trigger] k[i]),
        mark.len() > 0,
        !mark.contains('\n'),
        mark.last() != '\r',
        calm_text(head),
    ensures
        clean(pre + k + mark + head),
{
    let line = pre + k + mark + head;
    if line.contains('\n') {
        let j = choose|j: int| 0 <= j < line.len() && line[j] == '\n';
        if j < pre.len() {
            assert(pre[j] == '\n');
        } else if j < pre.len() + k.len() {
            assert(k[j - pre.len()] == '\n');
        } else if j < pre.len() + k.len() + mark.len() {
            assert(mark[j - pre.len() - k.len()] == '\n');
        } else {
            assert(head[j - pre.len() - k.len() - mark.len()] == '\n');
        }
    }
    if head.len() > 0 {
        assert(line.last() == head.last());
    } else {
        assert(line.last() == mark.last());
    }
}

/// No line of a text holds a character that the text does not hold.
proof fn lemma_lines_without(t: Seq<char>, i: int, c: char)
    requires
        0 <= i <= t.len(),
        !t.contains(c),
    ensures
        forall|k: int|
            0 <= k < lines_from(t, i).len() ==> !(#[trigger] lines_from(t, i)[k]).contains(c),
    decreases t.len() - i,
{
    if i < t.len() {
        let e = line_end(t, i);
        lemma_line_end(t, i);
        let piece = t.subrange(i, e);
        if piece.contains(c) {
            let j = choose|j: int| 0 <= j < piece.len() && piece[j] == c;
            assert(t[i + j] == c);
        }
        if e < t.len() {
            lemma_lines_without(t, e + 1, c);
            let first = strip_cr(piece);
            if first.contains(c) {
                let j = choose|j: int| 0 <= j < first.len() && first[j] == c;
                assert(piece[j] == c);
            }
            let rest = lines_from(t, e + 1);
            assert forall|k: int| 0 <= k < lines_from(t, i).len() implies !(#[trigger] lines_from(
                t,
                i,
            )[k]).contains(c) by {
                if k == 0 {
                    assert(lines_from(t, i)[0] == first);
                } else {
                    assert(lines_from(t, i)[k] == rest[k - 1]);
                }
            }
        } else {
            assert(lines_from(t, i) =~= seq![t.subrange(i, t.len() as int)]);
        }
    }
}

/// The lines that follow a value that fits are clean.
proof fn lemma_tail_clean(unit: Seq<char>, prefix: Seq<char>, v: Tree)
    requires
        fits(v),
        blank(unit),
        blank(prefix),
        unit.len() > 0,
        prefix.len() > 0,
    ensures
        all_clean(layout(unit, prefix, v).tail),
    decreases v, 0nat,
{
    match v {
        Tree::Primitive(p) => {
            if inline_text(p) is Some {
                lemma_scalar_text(p);
            } else {
                let t = p->Text_0;
                let pieces = split_lines(t);
                let lines = layout(unit, prefix, v).tail;
                assert(lines == indented(prefix, pieces));
                lemma_lines_from(t, 0);
                lemma_lines_without(t, 0, '\r');
                assert forall|i: int| 0 <= i < lines.len() implies clean(#[trigger] lines[i]) by {
                    let piece = pieces[i];
                    let line = prefix + piece;
                    assert(lines[i] == line);
                    assert(!piece.contains('\n'));
                    assert(!piece.contains('\r'));
                    if line.contains('\n') {
                        let j = choose|j: int| 0 <= j < line.len() && line[j] == '\n';
                        if j < prefix.len() {
                            assert(prefix[j] == '\n');
                        } else {
                            assert(piece[j - prefix.len()] == '\n');
                        }
                    }
                    if piece.len() > 0 {
                        assert(line.last() == piece.last());
                        assert(piece.contains(piece.last()));
                    } else {
                        assert(line.last() == prefix.last());
                    }
                }
            }
        },
        Tree::Object(entries) => {
            lemma_entry_lines_clean(unit, prefix, entries, entries.len());
        },
        Tree::Array(items) => {
            if !all_inline(items) {
                lemma_item_lines_clean(unit, prefix, items, items.len());
            }
        },
    }
}

/// The lines of entries that fit are clean.
proof fn lemma_entry_lines_clean(
    unit: Seq<char>,
    prefix: Seq<char>,
    entries: Seq<(Seq<char>, Tree)>,
    n: nat,
)
    requires
        n <= entries.len(),
        forall|i: int|
            0 <= i < entries.len() ==> plain_key((#[trigger] entries[i]).0) && fits(entries[i].1),
        blank(unit),
        blank(prefix),
        unit.len() > 0,
    ensures
        all_clean(entry_lines(unit, prefix, entries, n)),
    decreases entries, n,
{
    if n > 0 {
        let k = entries[n - 1].0;
        let v = entries[n - 1].1;
        assert(plain_key(entries[n - 1].0) && fits(entries[n - 1].1));
        lemma_entry_lines_clean(unit, prefix, entries, (n - 1) as nat);
        assert(blank(prefix + unit));
        lemma_tail_clean(unit, prefix + unit, v);
        lemma_head_calm(unit, prefix + unit, v);
        let inner = layout(unit, prefix + unit, v);
        let mark = seq![':'] + entry_gap(v);
        if mark.contains('\n') {
            let j = choose|j: int| 0 <= j < mark.len() && mark[j] == '\n';
        }
        lemma_line_clean(prefix, k, mark, inner.head);
        let line = prefix + k + seq![':'] + entry_gap(v) + inner.head;
        assert(line =~= prefix + k + mark + inner.head);
        let done = entry_lines(unit, prefix, entries, (n - 1) as nat);
        let lines = entry_lines(unit, prefix, entries, n);
        assert(lines == done + seq![line] + inner.tail);
        assert forall|i: int| 0 <= i < lines.len() implies clean(#[trigger] lines[i]) by {
            if i < done.len() {
                assert(lines[i] == done[i]);
            } else if i == done.len() {
                assert(lines[i] == line);
            } else {
                assert(lines[i] == inner.tail[i - done.len() - 1]);
            }
        }
    }
}

/// The lines of items that fit are clean.
proof fn lemma_item_lines_clean(unit: Seq<char>, prefix: Seq<char>, items: Seq<Tree>, n: nat)
    requires
        n <= items.len(),
        forall|i: int| 0 <= i < items.len() ==> fits(#[trigger] items[i]),
        blank(unit),
        blank(prefix),
        unit.len() > 0,
    ensures
        all_clean(item_lines(unit, prefix, items, n)),
    decreases items, n,
{
    if n > 0 {
        let v = items[n - 1];
        assert(fits(items[n - 1]));
        lemma_item_lines_clean(unit, prefix, items, (n - 1) as nat);
        assert(blank(prefix + unit));
        lemma_tail_clean(unit, prefix + unit, v);
        lemma_head_calm(unit, prefix + unit, v);
        let inner = layout(unit, prefix + unit, v);
        let line = prefix + item_mark(v) + inner.head;
        if is_block_array(v) {
            assert(inner.head == seq!['-', '-']);
            assert(line =~= prefix + Seq::<char>::empty() + seq!['-', '-'] + Seq::<char>::empty());
            if seq!['-', '-'].contains('\n') {
                let j = choose|j: int| 0 <= j < 2 && seq!['-', '-'][j] == '\n';
            }
            lemma_line_clean(prefix, Seq::empty(), seq!['-', '-'], Seq::empty());
        } else {
            let mark = seq!['-', ' '];
            if mark.contains('\n') {
                let j = choose|j: int| 0 <= j < mark.len() && mark[j] == '\n';
            }
            assert(line =~= prefix + Seq::<char>::empty() + mark + inner.head);
            lemma_line_clean(prefix, Seq::empty(), mark, inner.head);
        }
        let done = item_lines(unit, prefix, items, (n - 1) as nat);
        let lines = item_lines(unit, prefix, items, n);
        assert(lines == done + seq![line] + inner.tail);
        assert forall|i: int| 0 <= i < lines.len() implies clean(#[trigger] lines[i]) by {
            if i < done.len() {
                assert(lines[i] == done[i]);
            } else if i == done.len() {
                assert(lines[i] == line);
            } else {
                assert(lines[i] == inner.tail[i - done.len() - 1]);
            }
        }
    }
}

/// Where no line feed stands from `i` up to `j`, and one stands at `j` or
/// the text ends there, the line at `i` ends at `j`.
proof fn lemma_line_end_to(s: Seq<char>, i: int, j: int)
    requires
        0 <= i <= j <= s.len(),
        forall|k: int| i <= k < j ==> #[trigger] s[k] != '\n',
        j < s.len() ==> s[j] == '\n',
    ensures
        line_end(s, i) == j,
    decreases j - i,
{
    if i < j {
        lemma_line_end_to(s, i + 1, j);
    }
}

/// The lines of a text that follows another are the lines of the whole
/// from the end of the other on.
proof fn lemma_lines_shift(a: Seq<char>, b: Seq<char>, i: int)
    requires
        0 <= i <= b.len(),
    ensures
        lines_from(a + b, a.len() + i) == lines_from(b, i),
    decreases b.len() - i,
{
    let s = a + b;
    let n = a.len() as int;
    if i < b.len() {
        lemma_line_end(b, i);
        let e = line_end(b, i);
        assert forall|k: int| n + i <= k < n + e implies #[trigger] s[k] != '\n' by {
            assert(s[k] == b[k - n]);
        }
        if e < b.len() {
            assert(s[n + e] == b[e]);
        }
        lemma_line_end_to(s, n + i, n + e);
        if e < b.len() {
            lemma_lines_shift(a, b, e + 1);
            assert(s.subrange(n + i, n + e) =~= b.subrange(i, e));
        } else {
            assert(s.subrange(n + i, s.len() as int) =~= b.subrange(i, b.len() as int));
        }
    }
}

/// Lines joined are the first line, a line feed, and the other lines
/// joined.
proof fn lemma_join_front(lines: Seq<Seq<char>>)
    requires
        lines.len() >= 2,
    ensures
        join_lines(lines) == lines[0] + seq!['\n'] + join_lines(lines.drop_first()),
    decreases lines.len(),
{
    let rest = lines.drop_first();
    if lines.len() == 2 {
        assert(lines.drop_last() =~= seq![lines[0]]);
        assert(rest =~= seq![lines[1]]);
        assert(join_lines(lines.drop_last()) == lines[0]);
        assert(join_lines(rest) == lines[1]);
    } else {
        lemma_join_front(lines.drop_last());
        assert(lines.drop_last().drop_first() =~= rest.drop_last());
        assert(rest.last() == lines.last());
        assert(join_lines(lines) =~= lines[0] + seq!['\n'] + join_lines(rest));
    }
}

/// Clean lines, joined by line feeds, are the lines of the text that they
/// make.
proof fn lemma_split_of_join(lines: Seq<Seq<char>>)
    requires
        all_clean(lines),
    ensures
        split_lines(join_lines(lines)) == lines,
    decreases lines.len(),
{
    let text = join_lines(lines);
    if lines.len() == 0 {
        assert(lines =~= Seq::<Seq<char>>::empty());
    } else if lines.len() == 1 {
        let only = lines[0];
        assert(clean(lines[0]));
        assert forall|k: int| 0 <= k < only.len() implies #[trigger] only[k] != '\n' by {
            if only[k] == '\n' {
                assert(only.contains('\n'));
            }
        }
        lemma_line_end_to(only, 0, only.len() as int);
        assert(only.subrange(0, only.len() as int) =~= only);
        assert(lines =~= seq![only]);
    } else {
        let first = lines[0];
        let rest = lines.drop_first();
        assert(clean(lines[0]));
        assert forall|i: int| 0 <= i < rest.len() implies clean(#[trigger] rest[i]) by {
            assert(rest[i] == lines[i + 1]);
        }
        lemma_join_front(lines);
        lemma_split_of_join(rest);
        let head = first + seq!['\n'];
        assert(text =~= head + join_lines(rest));
        let e = first.len() as int;
        assert forall|k: int| 0 <= k < e implies #[trigger] text[k] != '\n' by {
            assert(text[k] == first[k]);
            if first[k] == '\n' {
                assert(first.contains('\n'));
            }
        }
        assert(text[e] == '\n');
        lemma_line_end_to(text, 0, e);
        assert(text.subrange(0, e) =~= first);
        lemma_lines_shift(head, join_lines(rest), 0);
        assert(seq![first] + rest =~= lines);
    }
}

/// Lines of which none is empty lose nothing when the empty lines are
/// taken out, and neither does an empty line before them but itself.
proof fn lemma_without_empty(lines: Seq<Seq<char>>)
    requires
        all_clean(lines),
    ensures
        without_empty(lines) == lines,
        without_empty(seq![Seq::<char>::empty()] + lines) == lines,
    decreases lines.len(),
{
    let led = seq![Seq::<char>::empty()] + lines;
    if lines.len() == 0 {
        assert(led.drop_last() =~= Seq::<Seq<char>>::empty());
        assert(without_empty(led.drop_last()) =~= Seq::<Seq<char>>::empty());
        assert(lines =~= Seq::<Seq<char>>::empty());
    } else {
        let before = lines.drop_last();
        assert forall|i: int| 0 <= i < before.len() implies clean(#[trigger] before[i]) by {
            assert(before[i] == lines[i]);
        }
        lemma_without_empty(before);
        assert(clean(lines[lines.len() - 1]));
        assert(led.drop_last() =~= seq![Seq::<char>::empty()] + before);
        assert(led.last() == lines.last());
        assert(before.push(lines.last()) =~= lines);
    }
}

/// In a value that fits, no object holds a key twice.
proof fn lemma_fits_wf(t: Tree)
    requires
        fits(t),
    ensures
        t.wf(),
    decreases t,
{
    match t {
        Tree::Primitive(p) => {},
        Tree::Object(entries) => {
            assert forall|i: int| 0 <= i < entries.len() implies (#[trigger] entries[i]).1.wf() by {
                lemma_fits_wf(entries[i].1);
            }
        },
        Tree::Array(items) => {
            assert forall|i: int| 0 <= i < items.len() implies (#[trigger] items[i]).wf() by {
                if all_inline(items) {
                    assert(plain_item(items[i]));
                } else {
                    lemma_fits_wf(items[i]);
                }
            }
        },
    }
}

/// What the parser makes of the text that the encoder wrote for an object
/// that fits is that object, under every unit: parsing is the inverse of
/// encoding on these values. The object that comes back is the one that was
/// written, entry by entry and in the same order; so it is also the same
/// value where the order of keys does not count.
///
/// Of the numbers of the object, the law asks that the numeric pattern find
/// them where they are written (see [`pattern_finds`]): what the pattern
/// matches is the `regex` crate's to say. An object without numbers comes
/// back whatever the pattern does.
pub proof fn law_parse_of_encoding(t: Tree, u: Indention)
    requires
        t is Object,
        fits(t),
        u.wf(),
    ensures
        parse(encoding(t, u)) == Ok::<Tree, Diagnostic>(t),
        parse(encoding(t, u)) matches Ok(back) && same(back, t),
{
    lemma_fits_wf(t);
    law_same_is_reflexive(t);
    let entries = t->Object_0;
    let n = entries.len();
    let lines = entry_lines(u.unit(), Seq::empty(), entries, n);
    let l = layout(u.unit(), Seq::empty(), t);
    assert(l.head =~= Seq::<char>::empty());
    assert(l.tail == lines);
    let start = State::initial();
    let root = Frame::object(0, Seq::empty());
    lemma_indent_deeper(u, 0);
    assert(collapsed(start.stack, 0) == start.stack);
    assert(ready(start, u, 0)) by {
        reveal(ready);
    }
    lemma_entries(start, u, 0, entries, n);
    let after = run(start, lines, 0)->Ok_0;
    let full = gathered(root, entries, n);
    lemma_gathered(root, entries, n);
    assert(entries.take(n as int) =~= entries);
    assert(start.stack.last() == root);
    assert(replaced(start.stack, full) =~= seq![full]);
    lemma_collapsed_twice(after.stack, 0, 0);
    assert(after.document() == t);
    assert(blank(u.unit()));
    assert(blank(Seq::<char>::empty()));
    lemma_entry_lines_clean(u.unit(), Seq::empty(), entries, n);
    lemma_without_empty(lines);
    assert(seq![l.head] + l.tail =~= seq![Seq::<char>::empty()] + lines);
    lemma_split_of_join(lines);
}

/// To encode what the parser made of an encoding gives that encoding
/// again, for every object that fits.
pub proof fn law_encoding_is_stable(t: Tree, u: Indention)
    requires
        t is Object,
        fits(t),
        u.wf(),
    ensures
        parse(encoding(t, u)) matches Ok(back) && encoding(back, u) == encoding(t, u),
{
    law_parse_of_encoding(t, u);
}

} // verus!
