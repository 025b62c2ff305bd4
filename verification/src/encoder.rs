//! The encoder: the canonical text of a value.

use crate::indention::Indention;
use crate::text::{
    chars_of, join_filled, join_lines, lines_of, push_all, rows, split_lines, string_of,
    without_empty,
};
use crate::value::{
    entries_view, items_view, lemma_array_view, lemma_object_view, PrimitiveValue, Scalar, Tree,
    Value,
};
use vstd::prelude::*;

verus! {

/// A string that holds a quote character or a line feed cannot stand
/// between quotes on one line: it is laid out as a block.
pub open spec fn needs_block(s: Seq<char>) -> bool {
    s.contains('\'') || s.contains('"') || s.contains('\n')
}

/// The text of a primitive on one line, where it has one: a number as it is
/// written, `true`, `false`, `null`, and a string between single quotes.
pub open spec fn inline_text(p: Scalar) -> Option<Seq<char>> {
    match p {
        Scalar::Number(t) => Some(t),
        Scalar::Boolean(b) => Some(
            if b {
                "true"@
            } else {
                "false"@
            },
        ),
        Scalar::Null => Some("null"@),
        Scalar::Text(s) => if needs_block(s) {
            None
        } else {
            Some(seq!['\''] + s + seq!['\''])
        },
    }
}

/// A value that is written on one line: a primitive with a one-line text.
pub open spec fn is_inline(t: Tree) -> bool {
    match t {
        Tree::Primitive(p) => inline_text(p) is Some,
        _ => false,
    }
}

/// Every item is written on one line.
pub open spec fn all_inline(items: Seq<Tree>) -> bool {
    forall|i: int| 0 <= i < items.len() ==> is_inline(#[trigger] items[i])
}

/// An array is laid out as a block as soon as one of its items is not
/// written on one line.
pub open spec fn is_block_array(t: Tree) -> bool {
    match t {
        Tree::Array(items) => !all_inline(items),
        _ => false,
    }
}

/// The text of a value: what continues the line on which the value
/// begins, and the lines that follow it.
pub struct Layout {
    pub head: Seq<char>,
    pub tail: Seq<Seq<char>>,
}

/// Each line behind `prefix`.
pub open spec fn indented(prefix: Seq<char>, lines: Seq<Seq<char>>) -> Seq<Seq<char>> {
    Seq::new(lines.len(), |i: int| prefix + lines[i])
}

/// The one-line text of a value, empty where it has none.
pub open spec fn item_text(t: Tree) -> Seq<char> {
    match t {
        Tree::Primitive(p) => match inline_text(p) {
            Some(text) => text,
            None => Seq::empty(),
        },
        _ => Seq::empty(),
    }
}

/// The one-line texts of the first `n` items, separated by single spaces.
pub open spec fn inline_items(items: Seq<Tree>, n: int) -> Seq<char>
    decreases n,
{
    if n <= 0 || n > items.len() {
        Seq::empty()
    } else if n == 1 {
        item_text(items[0])
    } else {
        inline_items(items, n - 1) + seq![' '] + item_text(items[n - 1])
    }
}

/// What follows the colon of an entry: nothing before a block array, a
/// space before anything else.
pub open spec fn entry_gap(value: Tree) -> Seq<char> {
    if is_block_array(value) {
        Seq::empty()
    } else {
        seq![' ']
    }
}

/// What begins the line of an item: nothing before a block array, which
/// brings its own `--`, a dash and a space before anything else.
pub open spec fn item_mark(item: Tree) -> Seq<char> {
    if is_block_array(item) {
        Seq::empty()
    } else {
        seq!['-', ' ']
    }
}

/// The layout of `t`, where `unit` is the white space of one level and
/// `prefix` the white space of the lines directly under `t`.
///
/// - A primitive with a one-line text is that text.
/// - A string that needs a block is `|`, followed by its lines, each behind
///   `prefix`.
/// - An object continues its line with nothing; each entry follows on a
///   line of its own (see [`entry_lines`]).
/// - An array whose items are all written on one line is `[`, the items
///   separated by spaces, and `]`.
/// - Any other array is `--`; each item follows on a line of its own (see
///   [`item_lines`]).
pub open spec fn layout(unit: Seq<char>, prefix: Seq<char>, t: Tree) -> Layout
    decreases t, 0nat,
{
    match t {
        Tree::Primitive(p) => match inline_text(p) {
            Some(text) => Layout { head: text, tail: Seq::empty() },
            None => Layout { head: seq!['|'], tail: indented(prefix, split_lines(p->Text_0)) },
        },
        Tree::Object(entries) => Layout {
            head: Seq::empty(),
            tail: entry_lines(unit, prefix, entries, entries.len() as nat),
        },
        Tree::Array(items) => if is_block_array(t) {
            Layout { head: seq!['-', '-'], tail: item_lines(unit, prefix, items, items.len() as nat) }
        } else {
            Layout {
                head: seq!['['] + inline_items(items, items.len() as int) + seq![']'],
                tail: Seq::empty(),
            }
        },
    }
}

/// The lines of the first `n` entries of an object: for each entry the
/// prefix, the key, a colon, the gap and the head of the value, laid out one
/// level deeper, and then the lines that follow that value.
pub open spec fn entry_lines(
    unit: Seq<char>,
    prefix: Seq<char>,
    entries: Seq<(Seq<char>, Tree)>,
    n: nat,
) -> Seq<Seq<char>>
    decreases entries, n,
{
    if n == 0 || n > entries.len() {
        Seq::empty()
    } else {
        let key = entries[n - 1].0;
        let value = entries[n - 1].1;
        let inner = layout(unit, prefix + unit, value);
        entry_lines(unit, prefix, entries, (n - 1) as nat) + seq![
            prefix + key + seq![':'] + entry_gap(value) + inner.head,
        ] + inner.tail
    }
}

/// The lines of the first `n` items of a block array: for each item the
/// prefix, the mark and the head of the item, laid out one level deeper, and
/// then the lines that follow that item.
pub open spec fn item_lines(unit: Seq<char>, prefix: Seq<char>, items: Seq<Tree>, n: nat) -> Seq<
    Seq<char>,
>
    decreases items, n,
{
    if n == 0 || n > items.len() {
        Seq::empty()
    } else {
        let item = items[n - 1];
        let inner = layout(unit, prefix + unit, item);
        item_lines(unit, prefix, items, (n - 1) as nat) + seq![
            prefix + item_mark(item) + inner.head,
        ] + inner.tail
    }
}

/// The text of `t` with the indents of `indention`: the layout of `t` from
/// an empty prefix, without the lines that are empty, joined by line feeds.
pub open spec fn encoding(t: Tree, indention: Indention) -> Seq<char> {
    let l = layout(indention.unit(), Seq::empty(), t);
    join_lines(without_empty(seq![l.head] + l.tail))
}

/// The lines `before`, the last of them continued by the head of `l`,
/// followed by the tail of `l`.
pub open spec fn continued(before: Seq<Seq<char>>, l: Layout) -> Seq<Seq<char>> {
    before.drop_last().push(before.last() + l.head) + l.tail
}

/// Tells whether the string `s` has to be laid out as a block.
pub fn string_needs_block(s: &[char]) -> (r: bool)
    ensures
        r == needs_block(s@),
{
    let mut i: usize = 0;
    while i < s.len()
        invariant
            i <= s.len(),
            forall|k: int| 0 <= k < i ==> s@[k] != '\'' && s@[k] != '"' && s@[k] != '\n',
        decreases s.len() - i,
    {
        let c = s[i];
        if c == '\'' || c == '"' || c == '\n' {
            return true;
        }
        i += 1;
    }
    false
}

/// Tells whether `v` is written on one line.
pub fn value_is_inline(v: &Value) -> (r: bool)
    ensures
        r == is_inline(v@),
{
    match v {
        Value::Primitive(PrimitiveValue::String(s)) => {
            let cs = chars_of(s.as_str());
            !string_needs_block(cs.as_slice())
        },
        Value::Primitive(_) => true,
        _ => false,
    }
}

/// Tells whether `v` is an array that is laid out as a block.
pub fn value_is_block_array(v: &Value) -> (r: bool)
    ensures
        r == is_block_array(v@),
{
    match v {
        Value::Array(items) => {
            proof {
                lemma_array_view(*items);
            }
            let mut i: usize = 0;
            while i < items.len()
                invariant
                    i <= items.len(),
                    v@ == Tree::Array(items_view(items@)),
                    forall|k: int| 0 <= k < i ==> is_inline(#[trigger] items_view(items@)[k]),
                decreases items.len() - i,
            {
                if !value_is_inline(&items[i]) {
                    assert(!is_inline(items_view(items@)[i as int]));
                    return true;
                }
                i += 1;
            }
            false
        },
        _ => false,
    }
}

/// Continues the last of `lines` with `t`.
fn continue_last(lines: &mut Vec<Vec<char>>, t: &[char])
    requires
        old(lines).len() > 0,
    ensures
        final(lines).len() == old(lines).len(),
        rows(final(lines)@) == rows(old(lines)@).drop_last().push(rows(old(lines)@).last() + t@),
{
    let mut last = lines.pop().unwrap();
    push_all(&mut last, t);
    lines.push(last);
    proof {
        assert(rows(lines@) =~= rows(old(lines)@).drop_last().push(
            rows(old(lines)@).last() + t@,
        ));
    }
}

/// Appends the one-line text of `p` to `out`.
fn push_inline(out: &mut Vec<char>, p: &PrimitiveValue)
    requires
        inline_text(p@) is Some,
    ensures
        final(out)@ == old(out)@ + inline_text(p@)->0,
{
    match p {
        PrimitiveValue::Number(t) => {
            push_all(out, chars_of(t.as_str()).as_slice());
        },
        PrimitiveValue::Boolean(b) => {
            if *b {
                push_all(out, chars_of("true").as_slice());
            } else {
                push_all(out, chars_of("false").as_slice());
            }
        },
        PrimitiveValue::Null => {
            push_all(out, chars_of("null").as_slice());
        },
        PrimitiveValue::String(s) => {
            out.push('\'');
            push_all(out, chars_of(s.as_str()).as_slice());
            out.push('\'');
            proof {
                assert(out@ =~= old(out)@ + (seq!['\''] + s@ + seq!['\'']));
            }
        },
    }
}

/// Lays `v` out at the end of `lines`: the last line is continued by the
/// head of the layout, and the lines of its tail follow.
pub fn lay_out(unit: &[char], prefix: &[char], v: &Value, lines: &mut Vec<Vec<char>>)
    requires
        old(lines).len() > 0,
    ensures
        final(lines).len() > 0,
        rows(final(lines)@) == continued(rows(old(lines)@), layout(unit@, prefix@, v@)),
    decreases v,
{
    let ghost before = rows(lines@);
    match v {
        Value::Primitive(p) => {
            let block = match p {
                PrimitiveValue::String(s) => string_needs_block(chars_of(s.as_str()).as_slice()),
                _ => false,
            };
            if !block {
                let mut text: Vec<char> = Vec::new();
                push_inline(&mut text, p);
                continue_last(lines, text.as_slice());
                proof {
                    assert(text@ =~= inline_text(p@)->0);
                    assert(rows(lines@) =~= continued(before, layout(unit@, prefix@, v@)));
                }
            } else {
                let s = match p {
                    PrimitiveValue::String(s) => s,
                    _ => {
                        assert(false);
                        return ;
                    },
                };
                let mut mark: Vec<char> = Vec::new();
                mark.push('|');
                continue_last(lines, mark.as_slice());
                let source = lines_of(chars_of(s.as_str()).as_slice());
                let ghost base = rows(lines@);
                let ghost src = split_lines(s@);
                proof {
                    assert(mark@ =~= seq!['|']);
                    assert(indented(prefix@, src.take(0)) =~= Seq::<Seq<char>>::empty());
                    assert(base + Seq::<Seq<char>>::empty() =~= base);
                }
                let mut k: usize = 0;
                while k < source.len()
                    invariant
                        k <= source.len(),
                        rows(source@) == src,
                        lines.len() > 0,
                        rows(lines@) == base + indented(prefix@, src.take(k as int)),
                    decreases source.len() - k,
                {
                    let mut row: Vec<char> = Vec::new();
                    push_all(&mut row, prefix);
                    push_all(&mut row, source[k].as_slice());
                    let ghost prev = rows(lines@);
                    lines.push(row);
                    proof {
                        assert(src[k as int] == source@[k as int]@);
                        assert(row@ =~= prefix@ + src[k as int]);
                        assert(rows(lines@) =~= prev.push(row@));
                        assert(indented(prefix@, src.take(k + 1)) =~= indented(
                            prefix@,
                            src.take(k as int),
                        ).push(prefix@ + src[k as int]));
                        assert(rows(lines@) =~= base + indented(prefix@, src.take(k + 1)));
                    }
                    k += 1;
                }
                proof {
                    assert(src.take(source.len() as int) =~= src);
                }
            }
        },
        Value::Object(entries) => {
            proof {
                lemma_object_view(*entries);
            }
            let ghost model = entries_view(entries@);
            let mut deeper: Vec<char> = Vec::new();
            push_all(&mut deeper, prefix);
            push_all(&mut deeper, unit);
            proof {
                assert(deeper@ =~= prefix@ + unit@);
                assert(before.drop_last().push(before.last() + Seq::<char>::empty()) =~= before);
                assert(before + Seq::<Seq<char>>::empty() =~= before);
            }
            let mut k: usize = 0;
            while k < entries.len()
                invariant
                    k <= entries.len(),
                    *v == Value::Object(*entries),
                    model == entries_view(entries@),
                    deeper@ == prefix@ + unit@,
                    lines.len() > 0,
                    rows(lines@) == before + entry_lines(unit@, prefix@, model, k as nat),
                decreases entries.len() - k,
            {
                let key = &entries[k].0;
                let value = &entries[k].1;
                let mut row: Vec<char> = Vec::new();
                push_all(&mut row, prefix);
                push_all(&mut row, chars_of(key.as_str()).as_slice());
                row.push(':');
                if !value_is_block_array(value) {
                    row.push(' ');
                }
                let ghost prev = rows(lines@);
                lines.push(row);
                proof {
                    assert(decreases_to!(*entries => entries[k as int]));
                    assert(decreases_to!(entries[k as int] => entries[k as int].1));
                    assert(v->Object_0 == *entries);
                    assert(decreases_to!(*v => v->Object_0));
                }
                lay_out(unit, deeper.as_slice(), value, lines);
                proof {
                    let inner = layout(unit@, prefix@ + unit@, value@);
                    assert(model[k as int] == (key@, value@));
                    assert(row@ =~= prefix@ + key@ + seq![':'] + entry_gap(value@));
                    let pushed = prev.push(row@);
                    assert(pushed.drop_last() =~= prev);
                    assert(rows(lines@) =~= prev + seq![row@ + inner.head] + inner.tail);
                    assert(rows(lines@) =~= before + entry_lines(
                        unit@,
                        prefix@,
                        model,
                        (k + 1) as nat,
                    ));
                }
                k += 1;
            }
        },
        Value::Array(items) => {
            proof {
                lemma_array_view(*items);
            }
            let ghost model = items_view(items@);
            if value_is_block_array(v) {
                let mut mark: Vec<char> = Vec::new();
                mark.push('-');
                mark.push('-');
                continue_last(lines, mark.as_slice());
                let ghost base = rows(lines@);
                let mut deeper: Vec<char> = Vec::new();
                push_all(&mut deeper, prefix);
                push_all(&mut deeper, unit);
                proof {
                    assert(mark@ =~= seq!['-', '-']);
                    assert(deeper@ =~= prefix@ + unit@);
                    assert(base + Seq::<Seq<char>>::empty() =~= base);
                }
                let mut k: usize = 0;
                while k < items.len()
                    invariant
                        k <= items.len(),
                        *v == Value::Array(*items),
                        model == items_view(items@),
                        deeper@ == prefix@ + unit@,
                        lines.len() > 0,
                        rows(lines@) == base + item_lines(unit@, prefix@, model, k as nat),
                    decreases items.len() - k,
                {
                    let item = &items[k];
                    let mut row: Vec<char> = Vec::new();
                    push_all(&mut row, prefix);
                    if !value_is_block_array(item) {
                        row.push('-');
                        row.push(' ');
                    }
                    let ghost prev = rows(lines@);
                    lines.push(row);
                    proof {
                        assert(decreases_to!(*items => items[k as int]));
                        assert(v->Array_0 == *items);
                        assert(decreases_to!(*v => v->Array_0));
                    }
                    lay_out(unit, deeper.as_slice(), item, lines);
                    proof {
                        let inner = layout(unit@, prefix@ + unit@, item@);
                        assert(model[k as int] == item@);
                        assert(row@ =~= prefix@ + item_mark(item@));
                        let pushed = prev.push(row@);
                        assert(pushed.drop_last() =~= prev);
                        assert(rows(lines@) =~= prev + seq![row@ + inner.head] + inner.tail);
                        assert(rows(lines@) =~= base + item_lines(
                            unit@,
                            prefix@,
                            model,
                            (k + 1) as nat,
                        ));
                    }
                    k += 1;
                }
            } else {
                let mut text: Vec<char> = Vec::new();
                text.push('[');
                let mut k: usize = 0;
                while k < items.len()
                    invariant
                        k <= items.len(),
                        model == items_view(items@),
                        !is_block_array(v@),
                        v@ == Tree::Array(model),
                        text@ == seq!['['] + inline_items(model, k as int),
                    decreases items.len() - k,
                {
                    if k > 0 {
                        text.push(' ');
                    }
                    assert(model.len() == items.len());
                    assert(is_inline(model[k as int]));
                    match &items[k] {
                        Value::Primitive(p) => {
                            push_inline(&mut text, p);
                        },
                        _ => {
                            assert(false);
                        },
                    }
                    proof {
                        assert(model[k as int] == items@[k as int]@);
                        assert(text@ =~= seq!['['] + inline_items(model, k + 1));
                    }
                    k += 1;
                }
                text.push(']');
                continue_last(lines, text.as_slice());
                proof {
                    assert(text@ =~= seq!['['] + inline_items(model, items.len() as int) + seq![
                        ']',
                    ]);
                    assert(rows(lines@) =~= continued(before, layout(unit@, prefix@, v@)));
                }
            }
        },
    }
}

/// Encodes a value as text. Strings that hold a quote character or a line
/// feed, and arrays that hold anything but one-line primitives, are spread
/// over several lines.
pub fn encode_string_expanded(v: &Value, indention: Indention) -> (r: String)
    ensures
        r@ == encoding(v@, indention),
{
    let unit = indention.unit_chars();
    let prefix: Vec<char> = Vec::new();
    let mut lines: Vec<Vec<char>> = Vec::new();
    lines.push(Vec::new());
    proof {
        assert(rows(lines@) =~= seq![Seq::<char>::empty()]);
    }
    lay_out(unit.as_slice(), prefix.as_slice(), v, &mut lines);
    proof {
        let l = layout(indention.unit(), Seq::empty(), v@);
        assert(Seq::<char>::empty() + l.head =~= l.head);
        assert(rows(lines@) =~= seq![l.head] + l.tail);
    }
    let out = join_filled(&lines);
    string_of(out.as_slice())
}

} // verus!
