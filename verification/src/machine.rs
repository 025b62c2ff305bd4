//! The parser as a state machine: what a line does to the stack of open
//! constructs. Every function here is a statement; the parser computes them.

use crate::error::{Diagnostic, ErrorKind};
use crate::grammar::{
    at_end_or_comment, blank_end, count_of, indent_run, inline_array, key, key_with_colon,
    lemma_primitive, primitive, array_items, Fault,
};
use crate::indention::Indention;
use crate::text::{has_at, join_lines, lemma_skip_white_space, skip_white_space, split_lines};
use crate::value::{insert_entry, Scalar, Tree};
use vstd::prelude::*;

verus! {

/// What an open construct has gathered so far.
pub enum Content {
    /// An object: the key that waits for its value, and the entries.
    Object { pending_key: Seq<char>, entries: Seq<(Seq<char>, Tree)> },
    /// An array: its items.
    Array { items: Seq<Tree> },
    /// A string of several lines: its lines.
    Text { lines: Seq<Seq<char>> },
}

/// An open construct, and the depth of the lines that belong to it.
pub struct Frame {
    pub indent: nat,
    pub content: Content,
}

impl Frame {
    /// An object without entries at depth `indent`, in which `key` waits for
    /// its value.
    pub open spec fn object(indent: nat, key: Seq<char>) -> Frame {
        Frame { indent, content: Content::Object { pending_key: key, entries: Seq::empty() } }
    }

    /// An empty array at depth `indent`.
    pub open spec fn array(indent: nat) -> Frame {
        Frame { indent, content: Content::Array { items: Seq::empty() } }
    }

    /// A string without lines at depth `indent`.
    pub open spec fn text(indent: nat) -> Frame {
        Frame { indent, content: Content::Text { lines: Seq::empty() } }
    }

    /// The value that the construct stands for when it is closed.
    pub open spec fn value(self) -> Tree {
        match self.content {
            Content::Object { pending_key, entries } => Tree::Object(entries),
            Content::Array { items } => Tree::Array(items),
            Content::Text { lines } => Tree::Primitive(Scalar::Text(join_lines(lines))),
        }
    }

    /// The frame after it has been given `v`: an object gives it to the key
    /// that waits, an array takes it as its next item.
    pub open spec fn with_value(self, v: Tree) -> Frame {
        match self.content {
            Content::Object { pending_key, entries } => Frame {
                indent: self.indent,
                content: Content::Object {
                    pending_key: Seq::empty(),
                    entries: insert_entry(entries, pending_key, v),
                },
            },
            Content::Array { items } => Frame {
                indent: self.indent,
                content: Content::Array { items: items.push(v) },
            },
            Content::Text { lines } => self,
        }
    }

    /// The object after `key` has begun to wait for its value.
    pub open spec fn with_key(self, key: Seq<char>) -> Frame {
        match self.content {
            Content::Object { pending_key, entries } => Frame {
                indent: self.indent,
                content: Content::Object { pending_key: key, entries },
            },
            _ => self,
        }
    }

    /// The object after `key` has been given `v`.
    pub open spec fn with_entry(self, key: Seq<char>, v: Tree) -> Frame {
        self.with_key(key).with_value(v)
    }

    /// The string after `line` has been added to its lines.
    pub open spec fn with_line(self, line: Seq<char>) -> Frame {
        match self.content {
            Content::Text { lines } => Frame {
                indent: self.indent,
                content: Content::Text { lines: lines.push(line) },
            },
            _ => self,
        }
    }
}

/// The object that holds `v` under `key` and nothing else.
pub open spec fn pair(key: Seq<char>, v: Tree) -> Tree {
    Tree::Object(seq![(key, v)])
}

/// The stack with `top` in place of its top frame.
pub open spec fn replaced(stack: Seq<Frame>, top: Frame) -> Seq<Frame> {
    stack.drop_last().push(top)
}

/// The stack after its top frame has been closed and its value given to
/// the frame below.
pub open spec fn folded(stack: Seq<Frame>) -> Seq<Frame> {
    replaced(stack.drop_last(), stack[stack.len() - 2].with_value(stack.last().value()))
}

/// The stack after every frame deeper than `indent` has been closed, from
/// the top down.
pub open spec fn collapsed(stack: Seq<Frame>, indent: nat) -> Seq<Frame>
    decreases stack.len(),
{
    if stack.len() >= 2 && stack.last().indent > indent {
        collapsed(folded(stack), indent)
    } else {
        stack
    }
}

/// The stack of a parser is never empty. Its lowest frame is an object at
/// depth 0, the root; every other frame is deeper, and no frame is deeper
/// than the frame above it. Only the top frame can be a string.
pub open spec fn stack_wf(stack: Seq<Frame>) -> bool {
    &&& stack.len() >= 1
    &&& stack[0].indent == 0
    &&& stack[0].content is Object
    &&& forall|i: int| 1 <= i < stack.len() ==> (#[trigger] stack[i]).indent >= 1
    &&& forall|i: int, j: int|
        0 <= i <= j < stack.len() ==> (#[trigger] stack[i]).indent <= (#[trigger] stack[j]).indent
    &&& forall|i: int| 0 <= i < stack.len() - 1 ==> !((#[trigger] stack[i]).content is Text)
}

/// Closing the top frame keeps the stack well formed and makes it shorter
/// by one.
pub proof fn lemma_folded(stack: Seq<Frame>)
    requires
        stack_wf(stack),
        stack.len() >= 2,
    ensures
        stack_wf(folded(stack)),
        folded(stack).len() == stack.len() - 1,
{
    let below = stack[stack.len() - 2];
    let f = folded(stack);
    assert(!(below.content is Text));
    assert forall|i: int| 0 <= i < f.len() - 1 implies !((#[trigger] f[i]).content is Text) by {
        assert(f[i] == stack[i]);
    }
    assert forall|i: int| 1 <= i < f.len() implies (#[trigger] f[i]).indent >= 1 by {
        assert(f[i].indent == stack[i].indent);
    }
    assert forall|i: int, j: int| 0 <= i <= j < f.len() implies (#[trigger] f[i]).indent <= (
    #[trigger] f[j]).indent by {
        assert(f[i].indent == stack[i].indent);
        assert(f[j].indent == stack[j].indent);
    }
}

/// Closing the frames deeper than `indent` keeps the stack well formed and
/// leaves no frame on top that is deeper than `indent`.
pub proof fn lemma_collapsed(stack: Seq<Frame>, indent: nat)
    requires
        stack_wf(stack),
    ensures
        stack_wf(collapsed(stack, indent)),
        collapsed(stack, indent).last().indent <= indent,
        collapsed(stack, indent).len() <= stack.len(),
        !(stack.last().content is Text) ==> !(collapsed(stack, indent).last().content is Text),
    decreases stack.len(),
{
    if stack.len() >= 2 && stack.last().indent > indent {
        lemma_folded(stack);
        lemma_collapsed(folded(stack), indent);
    }
}

/// Closing every frame but the root leaves the root alone.
pub proof fn lemma_collapsed_root(stack: Seq<Frame>)
    requires
        stack_wf(stack),
    ensures
        collapsed(stack, 0).len() == 1,
        collapsed(stack, 0)[0].content is Object,
    decreases stack.len(),
{
    if stack.len() >= 2 {
        lemma_folded(stack);
        lemma_collapsed_root(folded(stack));
    }
}

/// What the parser holds between two lines.
pub struct State {
    /// How many lines have been taken.
    pub line_number: nat,
    /// The unit of the document, once a line has shown it.
    pub indention: Option<Indention>,
    /// The open constructs, the root first.
    pub stack: Seq<Frame>,
}

impl State {
    /// The state before the first line: only the root is open.
    pub open spec fn initial() -> State {
        State { line_number: 0, indention: None, stack: seq![Frame::object(0, Seq::empty())] }
    }

    /// The stack is well formed, and so is the unit.
    pub open spec fn wf(self) -> bool {
        &&& stack_wf(self.stack)
        &&& self.indention matches Some(unit) ==> unit.wf()
    }

    /// The document that the lines taken so far make up.
    pub open spec fn document(self) -> Tree {
        collapsed(self.stack, 0)[0].value()
    }
}

/// The depth of a line whose leading white space holds `tabs` tabs and
/// `spaces` spaces, and the unit of the document after that line.
///
/// - Without leading white space the depth is 0.
/// - Tabs together with spaces are refused.
/// - Under the unit of tabs, spaces are refused; the depth is the number of
///   tabs.
/// - Under a unit of `n` spaces, tabs are refused, and so is a number of
///   spaces that is no multiple of `n`; the depth is the number of spaces
///   divided by `n`.
/// - While the unit is not known, the line fixes it: its spaces are the
///   unit, or else its one tab is. Several tabs are refused. The depth is 1.
pub open spec fn depth(unit: Option<Indention>, tabs: nat, spaces: nat) -> Result<
    (nat, Option<Indention>),
    ErrorKind,
> {
    if tabs == 0 && spaces == 0 {
        Ok((0, unit))
    } else if tabs > 0 && spaces > 0 {
        Err(ErrorKind::MixedTabsAndSpaces)
    } else {
        match unit {
            Some(Indention::Tabs) => if spaces > 0 {
                Err(
                    ErrorKind::InconsistentIndention(
                        Indention::Tabs,
                        Indention::Spaces(spaces as usize),
                    ),
                )
            } else {
                Ok((tabs, unit))
            },
            Some(Indention::Spaces(n)) => if tabs > 0 {
                Err(ErrorKind::InconsistentIndention(Indention::Spaces(n), Indention::Tabs))
            } else if n == 0 || spaces % n as nat != 0 {
                Err(ErrorKind::SpacesNotMultipleOfIndent)
            } else {
                Ok((spaces / n as nat, unit))
            },
            None => if spaces > 0 {
                Ok((1, Some(Indention::Spaces(spaces as usize))))
            } else if tabs > 1 {
                Err(ErrorKind::MultipleTabIndent)
            } else {
                Ok((1, Some(Indention::Tabs)))
            },
        }
    }
}

/// The depth of a line is at most the number of its leading tabs and
/// spaces.
pub proof fn lemma_depth_bound(unit: Option<Indention>, tabs: nat, spaces: nat)
    ensures
        depth(unit, tabs, spaces) matches Ok((d, next)) ==> d <= tabs + spaces,
{
    if let Some(Indention::Spaces(n)) = unit {
        if n > 0 && spaces > 0 {
            assert(spaces as int / n as int <= spaces as int) by (nonlinear_arith)
                requires
                    n > 0,
                    spaces > 0,
            ;
        }
    }
}

/// Tabs and spaces are white space: the run of them ends before the run
/// of white space does.
pub proof fn lemma_blank_before_white(s: Seq<char>, i: int)
    requires
        0 <= i <= s.len(),
    ensures
        i <= blank_end(s, i) <= skip_white_space(s, i),
    decreases s.len() - i,
{
    if i < s.len() && (s[i] == ' ' || s[i] == '\t') {
        lemma_blank_before_white(s, i + 1);
    } else {
        lemma_skip_white_space(s, i);
    }
}

/// `stack`, where only white space or a comment follows at `i`; else the
/// line is refused there.
pub open spec fn ended(s: Seq<char>, i: int, stack: Seq<Frame>) -> Result<Seq<Frame>, Fault> {
    if at_end_or_comment(s, i) {
        Ok(stack)
    } else {
        Err(Fault { kind: ErrorKind::UnexpectedCharacter, column: i })
    }
}

/// What a line does that stands at depth `indent` under an object, from
/// the position `i` behind its indentation.
///
/// The line begins with a key. Behind the key and white space:
/// - `:--` and the end of the line open an array under the key;
/// - `:` and the end of the line open an object under the key;
/// - `:` and an array on one line, or a primitive, give that value to the
///   key;
/// - `:` and `|` open a string of several lines under the key;
/// - the end of the line gives `null` to the key.
/// Whatever else follows is refused.
pub open spec fn object_line(stack: Seq<Frame>, s: Seq<char>, i: int, indent: nat) -> Result<
    Seq<Frame>,
    Fault,
> {
    let top = stack.last();
    match key(s, i) {
        Err(f) => Err(f),
        Ok((k, j)) => {
            let a = skip_white_space(s, j);
            if has_at(s, a, seq![':', '-', '-']) {
                if at_end_or_comment(s, a + 3) {
                    Ok(replaced(stack, top.with_key(k)).push(Frame::array(indent + 1)))
                } else {
                    Err(Fault { kind: ErrorKind::UnexpectedCharacter, column: a + 3 })
                }
            } else if has_at(s, a, seq![':']) {
                let b = skip_white_space(s, a + 1);
                if at_end_or_comment(s, b) {
                    Ok(
                        replaced(stack, top.with_key(k)).push(
                            Frame::object(indent + 1, Seq::empty()),
                        ),
                    )
                } else {
                    match inline_array(s, b) {
                        Err(f) => Err(f),
                        Ok(Some((v, c))) => ended(s, c, replaced(stack, top.with_entry(k, v))),
                        Ok(None) => match primitive(s, b) {
                            Err(f) => Err(f),
                            Ok(Some((p, c))) => ended(
                                s,
                                c,
                                replaced(stack, top.with_entry(k, Tree::Primitive(p))),
                            ),
                            Ok(None) => if has_at(s, b, seq!['|']) {
                                ended(
                                    s,
                                    b + 1,
                                    replaced(stack, top.with_key(k)).push(Frame::text(indent + 1)),
                                )
                            } else {
                                Err(Fault { kind: ErrorKind::UnexpectedCharacter, column: b })
                            },
                        },
                    }
                }
            } else if at_end_or_comment(s, a) {
                Ok(replaced(stack, top.with_entry(k, Tree::null())))
            } else {
                Err(Fault { kind: ErrorKind::UnexpectedCharacter, column: a })
            }
        },
    }
}

/// An array on one line ends behind its first character, within the text.
pub proof fn lemma_array_items(s: Seq<char>, i: int, items: Seq<Tree>)
    requires
        0 <= i <= s.len(),
    ensures
        array_items(s, i, items) matches Ok((v, end)) ==> i < end <= s.len(),
    decreases s.len() - i,
{
    let j = skip_white_space(s, i);
    lemma_skip_white_space(s, i);
    lemma_primitive(s, j);
    if has_at(s, j, seq![']']) {
    } else if has_at(s, j, seq!['[']) {
        lemma_array_items(s, j + 1, Seq::empty());
        match array_items(s, j + 1, Seq::empty()) {
            Ok((inner, k)) => {
                lemma_array_items(s, k, items.push(inner));
            },
            Err(f) => {},
        }
    } else {
        match primitive(s, j) {
            Ok(Some((p, k))) => {
                lemma_array_items(s, k, items.push(Tree::Primitive(p)));
            },
            _ => {},
        }
    }
}

/// The array frame `top` after the values that stand from `i` on have been
/// added to it: arrays on one line and primitives, separated by white
/// space, up to the end of the line or a comment. Whatever else stands there
/// is refused.
pub open spec fn array_values(s: Seq<char>, i: int, top: Frame) -> Result<Frame, Fault>
    decreases s.len() - i,
    when 0 <= i <= s.len()
{
    let a = skip_white_space(s, i);
    proof {
        lemma_skip_white_space(s, i);
        lemma_primitive(s, a);
        if has_at(s, a, seq!['[']) {
            lemma_array_items(s, a + 1, Seq::empty());
        }
    }
    if at_end_or_comment(s, a) {
        Ok(top)
    } else {
        match inline_array(s, a) {
            Err(f) => Err(f),
            Ok(Some((v, c))) => array_values(s, c, top.with_value(v)),
            Ok(None) => match primitive(s, a) {
                Err(f) => Err(f),
                Ok(Some((p, c))) => array_values(s, c, top.with_value(Tree::Primitive(p))),
                Ok(None) => Err(Fault { kind: ErrorKind::UnexpectedCharacter, column: a }),
            },
        }
    }
}

/// What a line does that stands at depth `indent` under an array, from the
/// position `i` behind its indentation.
///
/// - `--` and the end of the line open an array as the next item.
/// - Any other line has to begin with `-`. Behind it and white space:
///   - the end of the line opens an object as the next item;
///   - a key with its colon and the end of the line open an object with
///     that one key, and under the key an object;
///   - a key with its colon and an array on one line, or a primitive, add
///     the object that holds that value under the key;
///   - a key with its colon and `|` open an object with that one key, and
///     under the key a string of several lines;
///   - `|` opens a string of several lines as the next item;
///   - values separated by white space are added as items, one by one.
/// Whatever else follows is refused.
pub open spec fn array_line(stack: Seq<Frame>, s: Seq<char>, i: int, indent: nat) -> Result<
    Seq<Frame>,
    Fault,
> {
    let top = stack.last();
    if has_at(s, i, seq!['-', '-']) {
        if at_end_or_comment(s, i + 2) {
            Ok(stack.push(Frame::array(indent + 1)))
        } else {
            Err(Fault { kind: ErrorKind::UnexpectedCharacter, column: i + 2 })
        }
    } else if !has_at(s, i, seq!['-']) {
        Err(Fault { kind: ErrorKind::Expected("-"@), column: i })
    } else {
        let a = skip_white_space(s, i + 1);
        if at_end_or_comment(s, a) {
            Ok(stack.push(Frame::object(indent + 1, Seq::empty())))
        } else {
            match key_with_colon(s, a) {
                Err(f) => Err(f),
                Ok((k, j)) => if k.len() > 0 {
                    let b = skip_white_space(s, j);
                    if at_end_or_comment(s, b) {
                        Ok(
                            stack.push(Frame::object(indent + 1, k)).push(
                                Frame::object(indent + 1, Seq::empty()),
                            ),
                        )
                    } else {
                        match inline_array(s, b) {
                            Err(f) => Err(f),
                            Ok(Some((v, c))) => ended(
                                s,
                                c,
                                replaced(stack, top.with_value(pair(k, v))),
                            ),
                            Ok(None) => match primitive(s, b) {
                                Err(f) => Err(f),
                                Ok(Some((p, c))) => ended(
                                    s,
                                    c,
                                    replaced(stack, top.with_value(pair(k, Tree::Primitive(p)))),
                                ),
                                Ok(None) => if has_at(s, b, seq!['|']) {
                                    ended(
                                        s,
                                        b + 1,
                                        stack.push(Frame::object(indent + 1, k)).push(
                                            Frame::text(indent + 1),
                                        ),
                                    )
                                } else {
                                    Err(
                                        Fault {
                                            kind: ErrorKind::UnexpectedCharacter,
                                            column: b,
                                        },
                                    )
                                },
                            },
                        }
                    }
                } else if has_at(s, j, seq!['|']) {
                    Ok(stack.push(Frame::text(indent + 1)))
                } else {
                    match array_values(s, j, top) {
                        Ok(filled) => Ok(replaced(stack, filled)),
                        Err(f) => Err(f),
                    }
                },
            }
        }
    }
}

/// What a line does to a string of several lines on top of the stack.
pub enum TextLine {
    /// The line belongs to the string: the unit and the stack after it.
    Taken { unit: Option<Indention>, stack: Seq<Frame> },
    /// The line does not belong to a string: the stack on which it is read
    /// as a line of its own.
    Passed { stack: Seq<Frame> },
    /// The line is refused.
    Refused { fault: Fault },
}

/// What the line `s` does to the top of the stack where that is a string of
/// several lines.
///
/// - Under a known unit, the line belongs to the string where it begins
///   with the white space of the string's depth: what follows that white
///   space is the next line of the string. Else the string is closed.
/// - While the unit is not known, a line that begins with a tab fixes the
///   unit of tabs and belongs to the string, without that tab. A line that
///   begins with spaces, and holds no tab among its leading white space,
///   fixes these spaces as the unit and belongs to the string, without them;
///   with a tab among them it is refused. Any other line closes the string.
/// - Where the top of the stack is no string, the line is read on the stack
///   as it is.
pub open spec fn text_line(unit: Option<Indention>, stack: Seq<Frame>, s: Seq<char>) -> TextLine {
    let top = stack.last();
    if top.content is Text {
        match unit {
            Some(u) => {
                let run = indent_run(u, top.indent);
                if has_at(s, 0, run) {
                    TextLine::Taken {
                        unit,
                        stack: replaced(
                            stack,
                            top.with_line(s.subrange(run.len() as int, s.len() as int)),
                        ),
                    }
                } else {
                    TextLine::Passed { stack: folded(stack) }
                }
            },
            None => if has_at(s, 0, seq!['\t']) {
                TextLine::Taken {
                    unit: Some(Indention::Tabs),
                    stack: replaced(stack, top.with_line(s.subrange(1, s.len() as int))),
                }
            } else {
                let e = blank_end(s, 0);
                let tabs = count_of(s, '\t', 0, e);
                let spaces = count_of(s, ' ', 0, e);
                if tabs > 0 && spaces > 0 {
                    TextLine::Refused {
                        fault: Fault { kind: ErrorKind::MixedTabsAndSpaces, column: e },
                    }
                } else if spaces == 0 {
                    TextLine::Passed { stack: folded(stack) }
                } else {
                    TextLine::Taken {
                        unit: Some(Indention::Spaces(spaces as usize)),
                        stack: replaced(stack, top.with_line(s.subrange(e, s.len() as int))),
                    }
                }
            },
        }
    } else {
        TextLine::Passed { stack }
    }
}

/// What the line `s` does on `stack`, where it belongs to no string of
/// several lines: the unit and the stack after it.
///
/// - A line that holds only white space, or white space and a comment,
///   changes nothing.
/// - Else its leading tabs and spaces give its depth (see [`depth`]). A
///   line deeper than the top frame is refused.
/// - Else every frame deeper than the line is closed, and the line is read
///   under the frame that is then on top: see [`object_line`] and
///   [`array_line`].
pub open spec fn plain_line(unit: Option<Indention>, stack: Seq<Frame>, s: Seq<char>) -> Result<
    (Option<Indention>, Seq<Frame>),
    Fault,
> {
    if at_end_or_comment(s, 0) {
        Ok((unit, stack))
    } else {
        let e = blank_end(s, 0);
        let tabs = count_of(s, '\t', 0, e);
        let spaces = count_of(s, ' ', 0, e);
        match depth(unit, tabs, spaces) {
            Err(kind) => Err(Fault { kind, column: e }),
            Ok((d, unit)) => if d > stack.last().indent {
                Err(Fault { kind: ErrorKind::InvalidIndention, column: e })
            } else {
                let open = collapsed(stack, d);
                let read = match open.last().content {
                    Content::Object { .. } => object_line(open, s, e, d),
                    Content::Array { .. } => array_line(open, s, e, d),
                    Content::Text { .. } => Ok(open),
                };
                match read {
                    Ok(stack) => Ok((unit, stack)),
                    Err(f) => Err(f),
                }
            },
        }
    }
}

/// The error that reports `f` on the line `s` with the number `number`.
pub open spec fn report(f: Fault, number: nat, s: Seq<char>) -> Diagnostic {
    Diagnostic { kind: f.kind, line_number: number, column_number: f.column as nat, line: s }
}

/// The state after the line `s`, or why and where the line is refused.
pub open spec fn step(state: State, s: Seq<char>) -> Result<State, Diagnostic> {
    match text_line(state.indention, state.stack, s) {
        TextLine::Refused { fault } => Err(report(fault, state.line_number, s)),
        TextLine::Taken { unit, stack } => Ok(
            State { line_number: state.line_number + 1, indention: unit, stack },
        ),
        TextLine::Passed { stack } => match plain_line(state.indention, stack, s) {
            Ok((unit, stack)) => Ok(
                State { line_number: state.line_number + 1, indention: unit, stack },
            ),
            Err(f) => Err(report(f, state.line_number, s)),
        },
    }
}

/// The state after the lines of `lines` from the `n`th on, or the error of
/// the first line that is refused.
pub open spec fn run(state: State, lines: Seq<Seq<char>>, n: int) -> Result<State, Diagnostic>
    decreases lines.len() - n,
{
    if 0 <= n < lines.len() {
        match step(state, lines[n]) {
            Ok(next) => run(next, lines, n + 1),
            Err(e) => Err(e),
        }
    } else {
        Ok(state)
    }
}

/// The document that `text` denotes, or the error of its first line that
/// is refused.
pub open spec fn parse(text: Seq<char>) -> Result<Tree, Diagnostic> {
    match run(State::initial(), split_lines(text), 0) {
        Ok(state) => Ok(state.document()),
        Err(e) => Err(e),
    }
}

} // verus!
