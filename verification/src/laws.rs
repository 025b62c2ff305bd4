//! What holds of the parser on every state and every line.

use crate::error::ErrorKind;
use crate::grammar::{
    array_items, at_end_or_comment, blank_end, count_of, indent_run, inline_array, key,
    key_with_colon, lemma_bare_key_end, lemma_blank_end, lemma_primitive, lemma_string_literal,
    primitive,
};
use crate::indention::Indention;
use crate::machine::{
    array_line, array_values, collapsed, depth, folded, lemma_array_items, lemma_collapsed,
    lemma_collapsed_root, lemma_folded, object_line, pair, parse, replaced, run, stack_wf, step,
    text_line, Content, Frame, State, TextLine,
};
use crate::text::{has_at, lemma_lines_from, lemma_skip_white_space, skip_white_space, split_lines};
use crate::value::{
    distinct_keys, insert_entry, key_position, lemma_key_position, same, same_entry, Tree,
};
use vstd::prelude::*;

verus! {

/// The line begins with exactly `n` tabs, and no space follows them.
pub open spec fn begins_with_tabs(s: Seq<char>, n: int) -> bool {
    &&& 0 <= n <= s.len()
    &&& forall|k: int| 0 <= k < n ==> #[trigger] s[k] == '\t'
    &&& blank_end(s, 0) == n
}

/// The white space at the head of the line holds tabs and spaces.
pub open spec fn mixes_tabs_and_spaces(s: Seq<char>) -> bool {
    let e = blank_end(s, 0);
    count_of(s, '\t', 0, e) > 0 && count_of(s, ' ', 0, e) > 0
}

/// The line is the next line of the string of several lines that is open
/// on top of the stack.
pub open spec fn continues_text(state: State, s: Seq<char>) -> bool {
    &&& state.stack.last().content is Text
    &&& match state.indention {
        Some(unit) => has_at(s, 0, indent_run(unit, state.stack.last().indent)),
        None => has_at(s, 0, seq!['\t']),
    }
}

/// The line is skipped: it holds only white space, or white space and a
/// comment, and it is not measured for the first line of a string.
pub open spec fn is_skipped(state: State, s: Seq<char>) -> bool {
    at_end_or_comment(s, 0) && !(state.stack.last().content is Text && state.indention is None)
}

/// Where the tabs end, as many tabs have been counted, and no space.
proof fn lemma_count_tabs(s: Seq<char>, n: int)
    requires
        0 <= n <= s.len(),
        forall|k: int| 0 <= k < n ==> #[trigger] s[k] == '\t',
    ensures
        count_of(s, '\t', 0, n) == n,
        count_of(s, ' ', 0, n) == 0,
    decreases n,
{
    if n > 0 {
        lemma_count_tabs(s, n - 1);
    }
}

/// While the unit is not known, a line that begins with exactly one tab,
/// and is read or belongs to an open string, fixes the unit of tabs: after
/// every such line that is taken, the unit is tabs.
pub proof fn law_first_tab_fixes_tabs(state: State, s: Seq<char>)
    requires
        state.wf(),
        state.indention is None,
        begins_with_tabs(s, 1),
        !is_skipped(state, s),
    ensures
        step(state, s) matches Ok(next) ==> next.indention == Some(Indention::Tabs),
{
    lemma_count_tabs(s, 1);
    assert(s.subrange(0, 1) =~= seq!['\t']);
}

/// Under the unit of tabs, a line that begins with exactly two tabs where
/// the top frame is no deeper than one level is refused as too deep, unless
/// it is skipped or belongs to an open string.
pub proof fn law_two_tabs_too_deep(state: State, s: Seq<char>)
    requires
        state.wf(),
        state.indention == Some(Indention::Tabs),
        state.stack.last().indent <= 1,
        begins_with_tabs(s, 2),
        !is_skipped(state, s),
        !continues_text(state, s),
    ensures
        step(state, s) matches Err(d) && d.kind == ErrorKind::InvalidIndention,
{
    lemma_count_tabs(s, 2);
    if state.stack.last().content is Text {
        let below = state.stack[state.stack.len() - 2];
        assert(below.indent <= state.stack.last().indent);
        assert(folded(state.stack).last().indent == below.indent);
    }
}

/// A line whose leading white space holds both tabs and spaces is refused
/// for that, wherever it stands, unless it is skipped or belongs to an open
/// string.
pub proof fn law_mixed_is_refused(state: State, s: Seq<char>)
    requires
        state.wf(),
        mixes_tabs_and_spaces(s),
        !is_skipped(state, s),
        !continues_text(state, s),
    ensures
        step(state, s) matches Err(d) && d.kind == ErrorKind::MixedTabsAndSpaces,
{
    if has_at(s, 0, seq!['\t']) {
        assert(s.subrange(0, 1)[0] == '\t');
    }
}

/// What a frame has gathered is well formed: no object in it holds a key
/// twice.
pub open spec fn frame_sound(f: Frame) -> bool {
    match f.content {
        Content::Object { pending_key, entries } => Tree::Object(entries).wf(),
        Content::Array { items } => Tree::Array(items).wf(),
        Content::Text { lines } => true,
    }
}

/// What the frames of the stack have gathered is well formed.
pub open spec fn stack_sound(stack: Seq<Frame>) -> bool {
    forall|i: int| 0 <= i < stack.len() ==> frame_sound(#[trigger] stack[i])
}

/// The state is well formed, and so is what its frames have gathered.
pub open spec fn state_sound(state: State) -> bool {
    state.wf() && stack_sound(state.stack)
}

/// To give a key a value keeps the keys apart.
proof fn lemma_insert_entry(entries: Seq<(Seq<char>, Tree)>, key: Seq<char>, v: Tree)
    requires
        Tree::Object(entries).wf(),
        v.wf(),
    ensures
        Tree::Object(insert_entry(entries, key, v)).wf(),
{
    lemma_key_position(entries, key, 0);
    let i = key_position(entries, key, 0);
    let after = insert_entry(entries, key, v);
    if i < entries.len() {
        assert forall|a: int, b: int| 0 <= a < b < after.len() implies (#[trigger] after[a]).0 != (
        #[trigger] after[b]).0 by {
            assert(after[a].0 == entries[a].0);
            assert(after[b].0 == entries[b].0);
        }
        assert forall|a: int| 0 <= a < after.len() implies (#[trigger] after[a]).1.wf() by {
            if a != i {
                assert(after[a] == entries[a]);
            }
        }
    } else {
        assert forall|a: int, b: int| 0 <= a < b < after.len() implies (#[trigger] after[a]).0 != (
        #[trigger] after[b]).0 by {
            assert(after[a] == entries[a]);
            if b < entries.len() {
                assert(after[b] == entries[b]);
            }
        }
        assert forall|a: int| 0 <= a < after.len() implies (#[trigger] after[a]).1.wf() by {
            if a < entries.len() {
                assert(after[a] == entries[a]);
            }
        }
    }
}

/// A frame that is given a well-formed value stays sound, at its depth and
/// of its kind.
proof fn lemma_with_value(f: Frame, v: Tree)
    requires
        frame_sound(f),
        v.wf(),
    ensures
        frame_sound(f.with_value(v)),
        f.with_value(v).indent == f.indent,
        f.with_value(v).content is Object == f.content is Object,
        f.with_value(v).content is Array == f.content is Array,
        f.with_value(v).content is Text == f.content is Text,
{
    match f.content {
        Content::Object { pending_key, entries } => {
            lemma_insert_entry(entries, pending_key, v);
        },
        Content::Array { items } => {
            let after = items.push(v);
            assert forall|a: int| 0 <= a < after.len() implies (#[trigger] after[a]).wf() by {
                if a < items.len() {
                    assert(after[a] == items[a]);
                    assert(Tree::Array(items)->Array_0 == items);
                    assert(items[a].wf());
                } else {
                    assert(after[a] == v);
                }
            }
        },
        Content::Text { lines } => {},
    }
}

/// An array on one line is well formed.
proof fn lemma_array_items_wf(s: Seq<char>, i: int, items: Seq<Tree>)
    requires
        0 <= i <= s.len(),
        Tree::Array(items).wf(),
    ensures
        array_items(s, i, items) matches Ok((v, end)) ==> v.wf(),
    decreases s.len() - i,
{
    let j = skip_white_space(s, i);
    lemma_skip_white_space(s, i);
    lemma_primitive(s, j);
    if has_at(s, j, seq![']']) {
    } else if has_at(s, j, seq!['[']) {
        lemma_array_items(s, j + 1, Seq::empty());
        lemma_array_items_wf(s, j + 1, Seq::empty());
        match array_items(s, j + 1, Seq::empty()) {
            Ok((inner, k)) => {
                let next = items.push(inner);
                assert forall|a: int| 0 <= a < next.len() implies (#[trigger] next[a]).wf() by {
                    if a < items.len() {
                        assert(next[a] == items[a]);
                        assert(Tree::Array(items)->Array_0 == items);
                    assert(items[a].wf());
                    } else {
                        assert(next[a] == inner);
                    }
                }
                lemma_array_items_wf(s, k, next);
            },
            Err(f) => {},
        }
    } else {
        match primitive(s, j) {
            Ok(Some((p, k))) => {
                let next = items.push(Tree::Primitive(p));
                assert forall|a: int| 0 <= a < next.len() implies (#[trigger] next[a]).wf() by {
                    if a < items.len() {
                        assert(next[a] == items[a]);
                        assert(Tree::Array(items)->Array_0 == items);
                    assert(items[a].wf());
                    } else {
                        assert(next[a] == Tree::Primitive(p));
                    }
                }
                lemma_array_items_wf(s, k, next);
            },
            _ => {},
        }
    }
}

/// An array written on one line is well formed.
proof fn lemma_inline_array_wf(s: Seq<char>, i: int)
    requires
        0 <= i <= s.len(),
    ensures
        inline_array(s, i) matches Ok(Some((v, end))) ==> v.wf() && i < end <= s.len(),
{
    if has_at(s, i, seq!['[']) {
        lemma_array_items_wf(s, i + 1, Seq::empty());
        lemma_array_items(s, i + 1, Seq::empty());
    }
}

/// The values of a line leave an array frame sound, at its depth.
proof fn lemma_array_values(s: Seq<char>, i: int, top: Frame)
    requires
        0 <= i <= s.len(),
        frame_sound(top),
        top.content is Array,
    ensures
        array_values(s, i, top) matches Ok(filled) ==> frame_sound(filled) && filled.indent
            == top.indent && filled.content is Array,
    decreases s.len() - i,
{
    let a = skip_white_space(s, i);
    lemma_skip_white_space(s, i);
    lemma_primitive(s, a);
    lemma_inline_array_wf(s, a);
    if at_end_or_comment(s, a) {
    } else {
        match inline_array(s, a) {
            Err(f) => {},
            Ok(Some((v, c))) => {
                lemma_with_value(top, v);
                lemma_array_values(s, c, top.with_value(v));
            },
            Ok(None) => match primitive(s, a) {
                Err(f) => {},
                Ok(Some((p, c))) => {
                    lemma_with_value(top, Tree::Primitive(p));
                    lemma_array_values(s, c, top.with_value(Tree::Primitive(p)));
                },
                Ok(None) => {},
            },
        }
    }
}

/// The value of a sound frame is well formed.
proof fn lemma_value_wf(f: Frame)
    requires
        frame_sound(f),
    ensures
        f.value().wf(),
{
}

/// To close the top frame keeps the stack sound.
proof fn lemma_folded_sound(stack: Seq<Frame>)
    requires
        stack_wf(stack),
        stack_sound(stack),
        stack.len() >= 2,
    ensures
        stack_wf(folded(stack)),
        stack_sound(folded(stack)),
{
    lemma_folded(stack);
    let below = stack[stack.len() - 2];
    lemma_value_wf(stack.last());
    lemma_with_value(below, stack.last().value());
    let f = folded(stack);
    assert forall|i: int| 0 <= i < f.len() implies frame_sound(#[trigger] f[i]) by {
        if i < f.len() - 1 {
            assert(f[i] == stack[i]);
        }
    }
}

/// To close the frames deeper than `indent` keeps the stack sound.
proof fn lemma_collapsed_sound(stack: Seq<Frame>, indent: nat)
    requires
        stack_wf(stack),
        stack_sound(stack),
    ensures
        stack_wf(collapsed(stack, indent)),
        stack_sound(collapsed(stack, indent)),
    decreases stack.len(),
{
    if stack.len() >= 2 && stack.last().indent > indent {
        lemma_folded_sound(stack);
        lemma_collapsed_sound(folded(stack), indent);
    }
}

/// A new top frame of the same depth and kind, or a frame pushed above a
/// top frame that is no string, keeps the stack well formed.
proof fn lemma_replaced_and_pushed(stack: Seq<Frame>, top: Frame, more: Seq<Frame>)
    requires
        stack_wf(stack),
        stack_sound(stack),
        frame_sound(top),
        top.indent == stack.last().indent,
        stack.len() == 1 ==> top.content is Object,
        more.len() > 0 ==> !(top.content is Text),
        forall|i: int| 0 <= i < more.len() ==> frame_sound(#[trigger] more[i]),
        forall|i: int| 0 <= i < more.len() ==> (#[trigger] more[i]).indent > top.indent,
        forall|i: int, j: int|
            0 <= i <= j < more.len() ==> (#[trigger] more[i]).indent <= (#[trigger] more[j]).indent,
        forall|i: int| 0 <= i < more.len() - 1 ==> !((#[trigger] more[i]).content is Text),
    ensures
        stack_wf(replaced(stack, top) + more),
        stack_sound(replaced(stack, top) + more),
{
    let next = replaced(stack, top) + more;
    let n = stack.len() - 1;
    assert forall|i: int| 0 <= i < next.len() implies frame_sound(#[trigger] next[i]) by {
        if i < n {
            assert(next[i] == stack[i]);
        } else if i > n {
            assert(next[i] == more[i - n - 1]);
        }
    }
    assert forall|i: int| 1 <= i < next.len() implies (#[trigger] next[i]).indent >= 1 by {
        if i < n {
            assert(next[i] == stack[i]);
        } else if i == n {
            assert(stack[n].indent >= 1);
        } else {
            assert(next[i] == more[i - n - 1]);
        }
    }
    assert forall|i: int, j: int| 0 <= i <= j < next.len() implies (#[trigger] next[i]).indent <= (
    #[trigger] next[j]).indent by {
        let a = if i < n {
            stack[i].indent
        } else if i == n {
            top.indent
        } else {
            more[i - n - 1].indent
        };
        assert(next[i].indent == a);
        if i <= n {
            assert(stack[i].indent <= stack[n].indent);
        }
        if j > n {
            assert(next[j] == more[j - n - 1]);
        } else if j < n {
            assert(next[j] == stack[j]);
        }
    }
    assert forall|i: int| 0 <= i < next.len() - 1 implies !((#[trigger] next[i]).content is Text) by {
        if i < n {
            assert(next[i] == stack[i]);
        } else if i > n {
            assert(next[i] == more[i - n - 1]);
        }
    }
}

/// A key ends within the text.
proof fn lemma_key(s: Seq<char>, i: int)
    requires
        0 <= i <= s.len(),
    ensures
        key(s, i) matches Ok((k, j)) ==> i <= j <= s.len(),
        key_with_colon(s, i) matches Ok((k, j)) ==> i <= j <= s.len(),
{
    lemma_string_literal(s, i);
    lemma_bare_key_end(s, i);
    if let Ok((k, j)) = key(s, i) {
        lemma_skip_white_space(s, j);
    }
}

/// The stack with `top` on top, and `first` above it.
proof fn lemma_pushed_one(stack: Seq<Frame>, top: Frame, first: Frame)
    requires
        stack_wf(stack),
        stack_sound(stack),
        frame_sound(top),
        top.indent == stack.last().indent,
        stack.len() == 1 ==> top.content is Object,
        !(top.content is Text),
        frame_sound(first),
        first.indent > top.indent,
    ensures
        stack_wf(replaced(stack, top).push(first)),
        stack_sound(replaced(stack, top).push(first)),
{
    lemma_replaced_and_pushed(stack, top, seq![first]);
    assert(replaced(stack, top).push(first) =~= replaced(stack, top) + seq![first]);
}

/// The stack with `top` on top, and `first` and `second` above it.
proof fn lemma_pushed_two(stack: Seq<Frame>, top: Frame, first: Frame, second: Frame)
    requires
        stack_wf(stack),
        stack_sound(stack),
        frame_sound(top),
        top.indent == stack.last().indent,
        stack.len() == 1 ==> top.content is Object,
        !(top.content is Text),
        frame_sound(first),
        frame_sound(second),
        !(first.content is Text),
        top.indent < first.indent <= second.indent,
    ensures
        stack_wf(replaced(stack, top).push(first).push(second)),
        stack_sound(replaced(stack, top).push(first).push(second)),
{
    lemma_replaced_and_pushed(stack, top, seq![first, second]);
    assert(replaced(stack, top).push(first).push(second) =~= replaced(stack, top) + seq![
        first,
        second,
    ]);
}

/// The stack with `top` in place of its top frame.
proof fn lemma_replaced(stack: Seq<Frame>, top: Frame)
    requires
        stack_wf(stack),
        stack_sound(stack),
        frame_sound(top),
        top.indent == stack.last().indent,
        stack.len() == 1 ==> top.content is Object,
    ensures
        stack_wf(replaced(stack, top)),
        stack_sound(replaced(stack, top)),
{
    lemma_replaced_and_pushed(stack, top, Seq::empty());
    assert(replaced(stack, top) =~= replaced(stack, top) + Seq::<Frame>::empty());
}

/// A line under an object keeps the stack sound.
proof fn lemma_object_line(stack: Seq<Frame>, s: Seq<char>, i: int, indent: nat)
    requires
        stack_wf(stack),
        stack_sound(stack),
        stack.last().content is Object,
        stack.last().indent <= indent,
        0 <= i <= s.len(),
    ensures
        object_line(stack, s, i, indent) matches Ok(next) ==> stack_wf(next) && stack_sound(next),
{
    let top = stack.last();
    lemma_key(s, i);
    if let Ok((k, j)) = key(s, i) {
        let a = skip_white_space(s, j);
        lemma_skip_white_space(s, j);
        let keyed = top.with_key(k);
        assert(frame_sound(keyed));
        assert(replaced(stack, top) =~= stack);
        if has_at(s, a, seq![':', '-', '-']) {
            lemma_pushed_one(stack, keyed, Frame::array(indent + 1));
        } else if has_at(s, a, seq![':']) {
            let b = skip_white_space(s, a + 1);
            lemma_skip_white_space(s, a + 1);
            lemma_inline_array_wf(s, b);
            if at_end_or_comment(s, b) {
                lemma_pushed_one(stack, keyed, Frame::object(indent + 1, Seq::empty()));
            } else {
                match inline_array(s, b) {
                    Err(f) => {},
                    Ok(Some((v, c))) => {
                        lemma_with_value(keyed, v);
                        lemma_replaced(stack, top.with_entry(k, v));
                    },
                    Ok(None) => match primitive(s, b) {
                        Err(f) => {},
                        Ok(Some((p, c))) => {
                            lemma_with_value(keyed, Tree::Primitive(p));
                            lemma_replaced(stack, top.with_entry(k, Tree::Primitive(p)));
                        },
                        Ok(None) => {
                            lemma_pushed_one(stack, keyed, Frame::text(indent + 1));
                        },
                    },
                }
            }
        } else {
            lemma_with_value(keyed, Tree::null());
            lemma_replaced(stack, top.with_entry(k, Tree::null()));
        }
    }
}

/// A line under an array keeps the stack sound.
proof fn lemma_array_line(stack: Seq<Frame>, s: Seq<char>, i: int, indent: nat)
    requires
        stack_wf(stack),
        stack_sound(stack),
        stack.last().content is Array,
        stack.last().indent <= indent,
        0 <= i <= s.len(),
    ensures
        array_line(stack, s, i, indent) matches Ok(next) ==> stack_wf(next) && stack_sound(next),
{
    let top = stack.last();
    assert(replaced(stack, top) =~= stack);
    assert(stack.len() > 1);
    if has_at(s, i, seq!['-', '-']) {
        lemma_pushed_one(stack, top, Frame::array(indent + 1));
    } else if has_at(s, i, seq!['-']) {
        let a = skip_white_space(s, i + 1);
        lemma_skip_white_space(s, i + 1);
        if at_end_or_comment(s, a) {
            lemma_pushed_one(stack, top, Frame::object(indent + 1, Seq::empty()));
        } else {
            lemma_key(s, a);
            if let Ok((k, j)) = key_with_colon(s, a) {
                if k.len() > 0 {
                    let b = skip_white_space(s, j);
                    lemma_skip_white_space(s, j);
                    lemma_inline_array_wf(s, b);
                    if at_end_or_comment(s, b) {
                        lemma_pushed_two(
                            stack,
                            top,
                            Frame::object(indent + 1, k),
                            Frame::object(indent + 1, Seq::empty()),
                        );
                    } else {
                        match inline_array(s, b) {
                            Err(f) => {},
                            Ok(Some((v, c))) => {
                                lemma_pair(k, v);
                                lemma_with_value(top, pair(k, v));
                                lemma_replaced(stack, top.with_value(pair(k, v)));
                            },
                            Ok(None) => match primitive(s, b) {
                                Err(f) => {},
                                Ok(Some((p, c))) => {
                                    lemma_pair(k, Tree::Primitive(p));
                                    lemma_with_value(top, pair(k, Tree::Primitive(p)));
                                    lemma_replaced(
                                        stack,
                                        top.with_value(pair(k, Tree::Primitive(p))),
                                    );
                                },
                                Ok(None) => {
                                    lemma_pushed_two(
                                        stack,
                                        top,
                                        Frame::object(indent + 1, k),
                                        Frame::text(indent + 1),
                                    );
                                },
                            },
                        }
                    }
                } else if has_at(s, j, seq!['|']) {
                    lemma_pushed_one(stack, top, Frame::text(indent + 1));
                } else {
                    lemma_array_values(s, j, top);
                    if let Ok(filled) = array_values(s, j, top) {
                        lemma_replaced(stack, filled);
                    }
                }
            }
        }
    }
}

/// An object with one entry whose value is well formed is well formed.
proof fn lemma_pair(k: Seq<char>, v: Tree)
    requires
        v.wf(),
    ensures
        pair(k, v).wf(),
{
    let entries = seq![(k, v)];
    assert(Tree::Object(entries)->Object_0 == entries);
    assert forall|a: int| 0 <= a < entries.len() implies (#[trigger] entries[a]).1.wf() by {
        assert(entries[a] == (k, v));
    }
}

/// The state before the first line is sound.
pub proof fn law_initial_is_sound()
    ensures
        state_sound(State::initial()),
{
    let entries = Seq::<(Seq<char>, Tree)>::empty();
    assert(Tree::Object(entries)->Object_0 == entries);
}

/// Every line that is taken keeps the state sound: the stack stays well
/// formed, with the root at its bottom and no frame deeper than the frame
/// above it, and no object that is being gathered holds a key twice.
pub proof fn law_step_keeps_sound(state: State, s: Seq<char>)
    requires
        state_sound(state),
        s.len() <= usize::MAX,
    ensures
        step(state, s) matches Ok(next) ==> state_sound(next),
{
    let top = state.stack.last();
    assert(replaced(state.stack, top) =~= state.stack);
    match text_line(state.indention, state.stack, s) {
        TextLine::Refused { fault } => {},
        TextLine::Taken { unit, stack } => {
            match state.indention {
                Some(u) => {
                    lemma_replaced(
                        state.stack,
                        top.with_line(
                            s.subrange(indent_run(u, top.indent).len() as int, s.len() as int),
                        ),
                    );
                },
                None => {
                    lemma_blank_end(s, 0);
                    let e = blank_end(s, 0);
                    lemma_replaced(state.stack, top.with_line(s.subrange(1, s.len() as int)));
                    lemma_replaced(state.stack, top.with_line(s.subrange(e, s.len() as int)));
                    lemma_count_bound(s, ' ', 0, e);
                },
            }
        },
        TextLine::Passed { stack } => {
            if top.content is Text {
                lemma_folded_sound(state.stack);
            }
            if !at_end_or_comment(s, 0) {
                lemma_blank_end(s, 0);
                let e = blank_end(s, 0);
                let tabs = count_of(s, '\t', 0, e);
                let spaces = count_of(s, ' ', 0, e);
                lemma_count_bound(s, ' ', 0, e);
                if let Ok((d, unit)) = depth(state.indention, tabs, spaces) {
                    if d <= stack.last().indent {
                        lemma_collapsed_sound(stack, d);
                        lemma_collapsed(stack, d);
                        let open = collapsed(stack, d);
                        if open.last().content is Object {
                            lemma_object_line(open, s, e, d);
                        } else if open.last().content is Array {
                            lemma_array_line(open, s, e, d);
                        }
                    }
                }
            }
        },
    }
}

/// The lines that are taken keep the state sound.
pub proof fn law_run_keeps_sound(state: State, lines: Seq<Seq<char>>, n: int)
    requires
        state_sound(state),
        0 <= n <= lines.len(),
        forall|k: int| 0 <= k < lines.len() ==> (#[trigger] lines[k]).len() <= usize::MAX,
    ensures
        run(state, lines, n) matches Ok(last) ==> state_sound(last),
    decreases lines.len() - n,
{
    if n < lines.len() {
        law_step_keeps_sound(state, lines[n]);
        if let Ok(next) = step(state, lines[n]) {
            law_run_keeps_sound(next, lines, n + 1);
        }
    }
}

/// The document of a sound state is an object, and no object in it holds a
/// key twice.
pub proof fn law_document_is_sound(state: State)
    requires
        state_sound(state),
    ensures
        state.document() is Object,
        state.document().wf(),
{
    lemma_collapsed_root(state.stack);
    lemma_collapsed_sound(state.stack, 0);
    let root = collapsed(state.stack, 0)[0];
    assert(frame_sound(root));
}

/// Whatever text is parsed: its document is an object, and no object in it
/// holds a key twice.
pub proof fn law_parsed_is_sound(text: Seq<char>)
    requires
        text.len() <= usize::MAX,
    ensures
        parse(text) matches Ok(tree) ==> tree is Object && tree.wf(),
{
    law_initial_is_sound();
    lemma_lines_from(text, 0);
    law_run_keeps_sound(State::initial(), split_lines(text), 0);
    if let Ok(last) = run(State::initial(), split_lines(text), 0) {
        law_document_is_sound(last);
    }
}

/// Among entries whose keys differ, the key of an entry is found at that
/// entry.
proof fn lemma_own_position(entries: Seq<(Seq<char>, Tree)>, i: int, from: int)
    requires
        distinct_keys(entries),
        0 <= from <= i < entries.len(),
    ensures
        key_position(entries, entries[i].0, from) == i,
    decreases i - from,
{
    if from < i {
        lemma_own_position(entries, i, from + 1);
    }
}

/// A well-formed value is the same as itself.
pub proof fn law_same_is_reflexive(t: Tree)
    requires
        t.wf(),
    ensures
        same(t, t),
    decreases t,
{
    match t {
        Tree::Primitive(p) => {},
        Tree::Array(items) => {
            assert forall|i: int| 0 <= i < items.len() implies same(#[trigger] items[i], items[i]) by {
                law_same_is_reflexive(items[i]);
            }
        },
        Tree::Object(entries) => {
            assert forall|i: int| 0 <= i < entries.len() implies same_entry(
                #[trigger] entries[i],
                entries,
            ) by {
                lemma_own_position(entries, i, 0);
                law_same_is_reflexive(entries[i].1);
            }
        },
    }
}

/// A character occurs in a stretch at most as often as the stretch is long.
proof fn lemma_count_bound(s: Seq<char>, c: char, from: int, to: int)
    requires
        from <= to,
    ensures
        count_of(s, c, from, to) <= to - from,
    decreases to - from,
{
    if from < to {
        lemma_count_bound(s, c, from, to - 1);
    }
}

} // verus!
