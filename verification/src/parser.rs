//! The parser: it takes the lines of a document one by one and builds the
//! value that they denote.

use crate::error::ParserErrorKind;
use crate::grammar::{blank_end, lemma_blank_end, lemma_count_of, lemma_primitive, Fault};
use crate::indention::Indention;
use crate::laws::law_parsed_is_sound;
use crate::line_parser::{LineParser, ParserResult};
use crate::machine::{
    array_line, array_values, collapsed, depth, folded, lemma_array_items,
    lemma_blank_before_white, lemma_collapsed, lemma_collapsed_root, lemma_depth_bound,
    lemma_folded, object_line, parse, replaced, run, step, text_line, Content, Frame, State,
    TextLine,
};
use crate::text::{
    chars_of, has_at, join_lines, lemma_skip_white_space, lines_of, push_all, rows, split_lines,
    string_of,
};
use crate::value::{
    entries_view, insert_value, items_view, lemma_array_view, lemma_object_view, PrimitiveValue,
    Value,
};
use vstd::prelude::*;
use vstd::string::StrSliceExecFns;

verus! {

/// The texts that the strings of `lines` hold.
pub open spec fn texts(lines: Seq<String>) -> Seq<Seq<char>> {
    Seq::new(lines.len(), |i: int| lines[i]@)
}

/// What an open construct has gathered so far.
enum ContextContent {
    Object { pending_key: String, values: Vec<(String, Value)> },
    Array { values: Vec<Value> },
    MultiLineString { lines: Vec<String> },
}

/// An open construct of the document: one level of its nesting.
struct Context {
    indent: usize,
    content: ContextContent,
}

impl View for Context {
    type V = Frame;

    closed spec fn view(&self) -> Frame {
        Frame {
            indent: self.indent as nat,
            content: match self.content {
                ContextContent::Object { pending_key, values } => Content::Object {
                    pending_key: pending_key@,
                    entries: entries_view(values@),
                },
                ContextContent::Array { values } => Content::Array { items: items_view(values@) },
                ContextContent::MultiLineString { lines } => Content::Text { lines: texts(lines@) },
            },
        }
    }
}

/// The frames that the contexts of `stack` stand for.
spec fn frames(stack: Seq<Context>) -> Seq<Frame> {
    Seq::new(stack.len(), |i: int| stack[i]@)
}

impl Context {
    fn object_context(indent: usize, pending_key: String) -> (r: Context)
        ensures
            r@ == Frame::object(indent as nat, pending_key@),
    {
        let r = Context {
            indent,
            content: ContextContent::Object { pending_key, values: Vec::new() },
        };
        proof {
            assert(entries_view(Seq::<(String, Value)>::empty()) =~= Seq::empty());
        }
        r
    }

    fn array_context(indent: usize) -> (r: Context)
        ensures
            r@ == Frame::array(indent as nat),
    {
        let r = Context { indent, content: ContextContent::Array { values: Vec::new() } };
        proof {
            assert(items_view(Seq::<Value>::empty()) =~= Seq::empty());
        }
        r
    }

    fn multi_line_string_context(indent: usize) -> (r: Context)
        ensures
            r@ == Frame::text(indent as nat),
    {
        let r = Context { indent, content: ContextContent::MultiLineString { lines: Vec::new() } };
        proof {
            assert(texts(Seq::<String>::empty()) =~= Seq::empty());
        }
        r
    }

    fn is_object_context(&self) -> (r: bool)
        ensures
            r == (self@.content is Object),
    {
        matches!(self.content, ContextContent::Object { .. })
    }

    fn is_array_context(&self) -> (r: bool)
        ensures
            r == (self@.content is Array),
    {
        matches!(self.content, ContextContent::Array { .. })
    }

    fn is_text_context(&self) -> (r: bool)
        ensures
            r == (self@.content is Text),
    {
        matches!(self.content, ContextContent::MultiLineString { .. })
    }

    fn get_indent(&self) -> (r: usize)
        ensures
            r == self@.indent,
    {
        self.indent
    }

    /// The entries of an object.
    fn get_objects(self) -> (r: Result<Vec<(String, Value)>, ()>)
        ensures
            match self@.content {
                Content::Object { pending_key, entries } => r matches Ok(values) && entries_view(
                    values@,
                ) == entries,
                _ => r is Err,
            },
    {
        match self.content {
            ContextContent::Object { pending_key, values } => Ok(values),
            _ => Err(()),
        }
    }

    fn set_pending_key(self, key: String) -> (r: Context)
        ensures
            r@ == self@.with_key(key@),
    {
        match self.content {
            ContextContent::Object { pending_key, values } => Context {
                indent: self.indent,
                content: ContextContent::Object { pending_key: key, values },
            },
            content => Context { indent: self.indent, content },
        }
    }

    fn push_v(self, value: Value) -> (r: Context)
        ensures
            r@ == self@.with_value(value@),
    {
        match self.content {
            ContextContent::Object { pending_key, values } => {
                let mut values = values;
                insert_value(&mut values, pending_key, value);
                Context {
                    indent: self.indent,
                    content: ContextContent::Object { pending_key: String::new(), values },
                }
            },
            ContextContent::Array { values } => {
                let mut values = values;
                let ghost before = items_view(values@);
                values.push(value);
                proof {
                    assert(items_view(values@) =~= before.push(value@));
                }
                Context { indent: self.indent, content: ContextContent::Array { values } }
            },
            content => Context { indent: self.indent, content },
        }
    }

    fn push_kv(self, key: String, value: Value) -> (r: Context)
        ensures
            r@ == self@.with_entry(key@, value@),
    {
        self.set_pending_key(key).push_v(value)
    }

    fn push_line(self, line: String) -> (r: Context)
        ensures
            r@ == self@.with_line(line@),
    {
        match self.content {
            ContextContent::MultiLineString { lines } => {
                let mut lines = lines;
                let ghost before = texts(lines@);
                lines.push(line);
                proof {
                    assert(texts(lines@) =~= before.push(line@));
                }
                Context { indent: self.indent, content: ContextContent::MultiLineString { lines } }
            },
            content => Context { indent: self.indent, content },
        }
    }

    fn to_value(self) -> (r: Value)
        ensures
            r@ == self@.value(),
    {
        match self.content {
            ContextContent::Object { pending_key, values } => {
                proof {
                    lemma_object_view(values);
                }
                Value::Object(values)
            },
            ContextContent::Array { values } => {
                proof {
                    lemma_array_view(values);
                }
                Value::Array(values)
            },
            ContextContent::MultiLineString { lines } => {
                let mut out: Vec<char> = Vec::new();
                let mut k: usize = 0;
                let ghost all = texts(lines@);
                proof {
                    assert(all.take(0) =~= Seq::<Seq<char>>::empty());
                }
                while k < lines.len()
                    invariant
                        k <= lines.len(),
                        all == texts(lines@),
                        out@ == join_lines(all.take(k as int)),
                    decreases lines.len() - k,
                {
                    if k > 0 {
                        out.push('\n');
                    }
                    push_all(&mut out, chars_of(lines[k].as_str()).as_slice());
                    proof {
                        let next = all.take(k + 1);
                        assert(next.drop_last() =~= all.take(k as int));
                        assert(next.last() == lines@[k as int]@);
                        if k == 0 {
                            assert(Seq::<char>::empty() + lines@[k as int]@ == lines@[k as int]@);
                        } else {
                            assert(join_lines(all.take(k as int)).push('\n') == join_lines(
                                all.take(k as int),
                            ) + seq!['\n']);
                        }
                    }
                    k += 1;
                }
                proof {
                    assert(all.take(lines.len() as int) =~= all);
                }
                Value::Primitive(PrimitiveValue::String(string_of(out.as_slice())))
            },
        }
    }
}

/// Takes the lines of a document one by one and builds its value.
pub struct Parser {
    line_number: usize,
    indention: Option<Indention>,
    context_stack: Vec<Context>,
}

impl View for Parser {
    type V = State;

    closed spec fn view(&self) -> State {
        State {
            line_number: self.line_number as nat,
            indention: self.indention,
            stack: frames(self.context_stack@),
        }
    }
}

impl Parser {
    /// The state of the parser is well formed.
    pub open spec fn wf(&self) -> bool {
        self@.wf()
    }

    /// A parser that has taken no line.
    pub fn new() -> (r: Self)
        ensures
            r@ == State::initial(),
            r.wf(),
    {
        let root_context = Context::object_context(0, String::new());
        let mut context_stack: Vec<Context> = Vec::new();
        context_stack.push(root_context);
        let r = Self { line_number: 0, indention: None, context_stack };
        proof {
            assert(frames(r.context_stack@) =~= seq![Frame::object(0, Seq::empty())]);
        }
        r
    }

    /// How many lines the parser has taken.
    pub fn line_number(&self) -> (r: usize)
        ensures
            r == self@.line_number,
    {
        self.line_number
    }

    /// The unit of the document, once a line has shown it.
    pub fn indention(&self) -> (r: Option<Indention>)
        ensures
            r == self@.indention,
    {
        self.indention
    }

    /// Puts `context` on top of the stack.
    fn push_context(&mut self, context: Context)
        ensures
            final(self)@ == (State { stack: old(self)@.stack.push(context@), ..old(self)@ }),
    {
        self.context_stack.push(context);
        proof {
            assert(frames(self.context_stack@) =~= frames(old(self).context_stack@).push(context@));
        }
    }

    /// Takes the top context off the stack.
    fn pop_context(&mut self) -> (r: Context)
        requires
            old(self)@.stack.len() >= 1,
        ensures
            final(self)@ == (State { stack: old(self)@.stack.drop_last(), ..old(self)@ }),
            r@ == old(self)@.stack.last(),
    {
        let r = self.context_stack.pop().unwrap();
        proof {
            assert(frames(self.context_stack@) =~= frames(old(self).context_stack@).drop_last());
        }
        r
    }

    /// Lets `key` wait for its value in the object on top of the stack.
    fn set_pending_key(&mut self, key: String)
        requires
            old(self)@.stack.len() >= 1,
        ensures
            final(self)@ == (State {
                stack: replaced(old(self)@.stack, old(self)@.stack.last().with_key(key@)),
                ..old(self)@
            }),
    {
        let top = self.pop_context();
        self.push_context(top.set_pending_key(key));
    }

    /// Gives `value` to the top of the stack.
    fn push_v(&mut self, value: Value)
        requires
            old(self)@.stack.len() >= 1,
        ensures
            final(self)@ == (State {
                stack: replaced(old(self)@.stack, old(self)@.stack.last().with_value(value@)),
                ..old(self)@
            }),
    {
        let top = self.pop_context();
        self.push_context(top.push_v(value));
    }

    /// Gives `value` to `key` in the object on top of the stack.
    fn push_kv(&mut self, key: String, value: Value)
        requires
            old(self)@.stack.len() >= 1,
        ensures
            final(self)@ == (State {
                stack: replaced(old(self)@.stack, old(self)@.stack.last().with_entry(key@, value@)),
                ..old(self)@
            }),
    {
        let top = self.pop_context();
        self.push_context(top.push_kv(key, value));
    }

    /// Adds `line` to the string on top of the stack.
    fn push_line(&mut self, line: String)
        requires
            old(self)@.stack.len() >= 1,
        ensures
            final(self)@ == (State {
                stack: replaced(old(self)@.stack, old(self)@.stack.last().with_line(line@)),
                ..old(self)@
            }),
    {
        let top = self.pop_context();
        self.push_context(top.push_line(line));
    }

    /// Closes the top context and gives its value to the context below.
    fn pop_stack(&mut self)
        requires
            old(self)@.stack.len() >= 2,
        ensures
            final(self)@ == (State { stack: folded(old(self)@.stack), ..old(self)@ }),
    {
        let context = self.pop_context();
        self.push_v(context.to_value());
    }

    /// The number of open contexts.
    fn height(&self) -> (r: usize)
        ensures
            r == self@.stack.len(),
    {
        self.context_stack.len()
    }

    /// The depth of the top context.
    fn top_indent(&self) -> (r: usize)
        requires
            self@.stack.len() >= 1,
        ensures
            r == self@.stack.last().indent,
    {
        self.context_stack[self.context_stack.len() - 1].get_indent()
    }

    /// The depth of a line from the tabs and spaces at its head. The first
    /// line that has any fixes the unit of the document.
    fn calculate_indent(
        &mut self,
        line_parser: &LineParser,
        tabs_count: usize,
        spaces_count: usize,
    ) -> (r: ParserResult<usize>)
        requires
            old(self).wf(),
            line_parser.wf(),
        ensures
            final(self).wf(),
            match depth(old(self)@.indention, tabs_count as nat, spaces_count as nat) {
                Ok((d, unit)) => r matches Ok(n) && n == d && final(self)@ == (State {
                    indention: unit,
                    ..old(self)@
                }),
                Err(kind) => r matches Err(e) && e@ == line_parser.fault(
                    Fault { kind, column: line_parser.pos() },
                ) && final(self)@ == old(self)@,
            },
    {
        if tabs_count == 0 && spaces_count == 0 {
            return Ok(0);
        }
        if tabs_count > 0 && spaces_count > 0 {
            return Err(line_parser.generate_error(ParserErrorKind::MixedTabsAndSpaces));
        }
        match self.indention {
            Some(Indention::Tabs) => {
                if spaces_count > 0 {
                    Err(
                        line_parser.generate_error(
                            ParserErrorKind::InconsistentIndention(
                                Indention::Tabs,
                                Indention::Spaces(spaces_count),
                            ),
                        ),
                    )
                } else {
                    Ok(tabs_count)
                }
            },
            Some(Indention::Spaces(spaces)) => {
                if tabs_count > 0 {
                    Err(
                        line_parser.generate_error(
                            ParserErrorKind::InconsistentIndention(
                                Indention::Spaces(spaces),
                                Indention::Tabs,
                            ),
                        ),
                    )
                } else if spaces == 0 || spaces_count % spaces != 0 {
                    Err(line_parser.generate_error(ParserErrorKind::SpacesNotMultipleOfIndent))
                } else {
                    Ok(spaces_count / spaces)
                }
            },
            None => {
                if spaces_count > 0 {
                    self.indention = Some(Indention::Spaces(spaces_count));
                    Ok(1)
                } else if tabs_count > 1 {
                    Err(line_parser.generate_error(ParserErrorKind::MultipleTabIndent))
                } else {
                    self.indention = Some(Indention::Tabs);
                    Ok(1)
                }
            },
        }
    }

    /// Closes contexts from the top of the stack until the top context is
    /// not deeper than `indent`.
    fn collapse_context_to_indent(&mut self, indent: usize)
        requires
            old(self).wf(),
        ensures
            final(self).wf(),
            final(self)@ == (State {
                stack: collapsed(old(self)@.stack, indent as nat),
                ..old(self)@
            }),
    {
        while self.height() >= 2 && self.top_indent() > indent
            invariant
                self.wf(),
                self@.line_number == old(self)@.line_number,
                self@.indention == old(self)@.indention,
                collapsed(self@.stack, indent as nat) == collapsed(old(self)@.stack, indent as nat),
            decreases self@.stack.len(),
        {
            proof {
                lemma_folded(self@.stack);
            }
            self.pop_stack();
        }
    }

    /// Closes every context but the root.
    pub fn collapse_context(&mut self)
        requires
            old(self).wf(),
        ensures
            final(self).wf(),
            final(self)@ == (State { stack: collapsed(old(self)@.stack, 0), ..old(self)@ }),
            final(self)@.stack.len() == 1,
            final(self)@.document() == old(self)@.document(),
    {
        proof {
            lemma_collapsed_root(self@.stack);
        }
        self.collapse_context_to_indent(0);
    }

    /// Closes every context but the root and returns the document: the
    /// object that the root has gathered.
    pub fn finish(self) -> (r: Value)
        requires
            self.wf(),
        ensures
            r@ == self@.document(),
            r@ is Object,
    {
        let mut parser = self;
        parser.collapse_context();
        let root = parser.pop_context();
        match root.get_objects() {
            Ok(values) => {
                proof {
                    lemma_object_view(values);
                }
                Value::Object(values)
            },
            Err(_) => Value::Object(Vec::new()),
        }
    }

    /// Reads a line behind its indentation under the object on top of the
    /// stack.
    fn process_post_indent_object(&mut self, line_parser: &mut LineParser, indent: usize) -> (r:
        ParserResult<()>)
        requires
            old(self).wf(),
            old(line_parser).wf(),
            old(self)@.stack.last().content is Object,
            old(self)@.stack.last().indent <= indent < usize::MAX,
        ensures
            final(self).wf(),
            final(line_parser).follows(old(line_parser)),
            final(self)@.line_number == old(self)@.line_number,
            final(self)@.indention == old(self)@.indention,
            match object_line(
                old(self)@.stack,
                old(line_parser).text(),
                old(line_parser).pos(),
                indent as nat,
            ) {
                Ok(stack) => r is Ok && final(self)@.stack == stack,
                Err(f) => r matches Err(e) && e@ == old(line_parser).fault(f),
            },
    {
        proof {
            reveal_strlit(":--");
            reveal_strlit(":");
            reveal_strlit("|");
            assert(":--"@ =~= seq![':', '-', '-']);
            assert(":"@ =~= seq![':']);
            assert("|"@ =~= seq!['|']);
        }
        let key = match line_parser.parse_key() {
            Ok(key) => key,
            Err(e) => {
                return Err(e);
            },
        };
        line_parser.consume_whitespaces();
        if line_parser.have(":--") {
            if !line_parser.see_end_or_comment() {
                return Err(line_parser.generate_error(ParserErrorKind::UnexpectedCharacter));
            }
            self.set_pending_key(key);
            self.push_context(Context::array_context(indent + 1));
            return Ok(());
        }
        if line_parser.have(":") {
            line_parser.consume_whitespaces();
            if line_parser.see_end_or_comment() {
                self.set_pending_key(key);
                self.push_context(Context::object_context(indent + 1, String::new()));
                return Ok(());
            }
            match line_parser.parse_inline_array() {
                Err(e) => {
                    return Err(e);
                },
                Ok(Some(value)) => {
                    self.push_kv(key, value);
                },
                Ok(None) => match line_parser.parse_primitive() {
                    Err(e) => {
                        return Err(e);
                    },
                    Ok(Some(primitive)) => {
                        self.push_kv(key, Value::Primitive(primitive));
                    },
                    Ok(None) => {
                        if line_parser.have("|") {
                            self.set_pending_key(key);
                            self.push_context(Context::multi_line_string_context(indent + 1));
                        } else {
                            return Err(
                                line_parser.generate_error(ParserErrorKind::UnexpectedCharacter),
                            );
                        }
                    },
                },
            }
            if line_parser.see_end_or_comment() {
                return Ok(());
            } else {
                return Err(line_parser.generate_error(ParserErrorKind::UnexpectedCharacter));
            }
        }
        if !line_parser.see_end_or_comment() {
            return Err(line_parser.generate_error(ParserErrorKind::UnexpectedCharacter));
        }
        self.push_kv(key, Value::null());
        Ok(())
    }

    /// Adds the values that stand on the rest of the line to the array on
    /// top of the stack.
    fn process_array_values(&mut self, line_parser: &mut LineParser) -> (r: ParserResult<()>)
        requires
            old(self).wf(),
            old(line_parser).wf(),
            old(self)@.stack.last().content is Array,
        ensures
            final(self).wf(),
            final(line_parser).follows(old(line_parser)),
            final(self)@.line_number == old(self)@.line_number,
            final(self)@.indention == old(self)@.indention,
            match array_values(
                old(line_parser).text(),
                old(line_parser).pos(),
                old(self)@.stack.last(),
            ) {
                Ok(filled) => r is Ok && final(self)@.stack == replaced(old(self)@.stack, filled),
                Err(f) => r matches Err(e) && e@ == old(line_parser).fault(f),
            },
    {
        let ghost s = line_parser.text();
        let ghost stack = self@.stack;
        proof {
            assert(replaced(stack, stack.last()) =~= stack);
        }
        loop
            invariant
                self.wf(),
                line_parser.follows(old(line_parser)),
                s == old(line_parser).text(),
                stack == old(self)@.stack,
                self@.line_number == old(self)@.line_number,
                self@.indention == old(self)@.indention,
                self@.stack == replaced(stack, self@.stack.last()),
                self@.stack.last().content is Array,
                array_values(s, old(line_parser).pos(), stack.last()) == array_values(
                    s,
                    line_parser.pos(),
                    self@.stack.last(),
                ),
            decreases s.len() - line_parser.pos(),
        {
            let ghost at = line_parser.pos();
            let ghost before = self@.stack;
            line_parser.consume_whitespaces();
            proof {
                lemma_skip_white_space(s, at);
                lemma_primitive(s, line_parser.pos());
                if has_at(s, line_parser.pos(), seq!['[']) {
                    lemma_array_items(s, line_parser.pos() + 1, Seq::empty());
                }
            }
            if line_parser.see_end_or_comment() {
                return Ok(());
            }
            match line_parser.parse_inline_array() {
                Err(e) => {
                    return Err(e);
                },
                Ok(Some(value)) => {
                    self.push_v(value);
                },
                Ok(None) => match line_parser.parse_primitive() {
                    Err(e) => {
                        return Err(e);
                    },
                    Ok(Some(primitive)) => {
                        self.push_v(Value::Primitive(primitive));
                    },
                    Ok(None) => {
                        return Err(
                            line_parser.generate_error(ParserErrorKind::UnexpectedCharacter),
                        );
                    },
                },
            }
            proof {
                assert(self@.stack =~= replaced(stack, self@.stack.last()));
            }
        }
    }

    /// Reads a line behind its indentation under the array on top of the
    /// stack.
    fn process_post_indent_array(&mut self, line_parser: &mut LineParser, indent: usize) -> (r:
        ParserResult<()>)
        requires
            old(self).wf(),
            old(line_parser).wf(),
            old(self)@.stack.last().content is Array,
            old(self)@.stack.last().indent <= indent < usize::MAX,
        ensures
            final(self).wf(),
            final(line_parser).follows(old(line_parser)),
            final(self)@.line_number == old(self)@.line_number,
            final(self)@.indention == old(self)@.indention,
            match array_line(
                old(self)@.stack,
                old(line_parser).text(),
                old(line_parser).pos(),
                indent as nat,
            ) {
                Ok(stack) => r is Ok && final(self)@.stack == stack,
                Err(f) => r matches Err(e) && e@ == old(line_parser).fault(f),
            },
    {
        proof {
            reveal_strlit("--");
            reveal_strlit("-");
            reveal_strlit("|");
            assert("--"@ =~= seq!['-', '-']);
            assert("-"@ =~= seq!['-']);
            assert("|"@ =~= seq!['|']);
        }
        if line_parser.have("--") {
            if !line_parser.see_end_or_comment() {
                return Err(line_parser.generate_error(ParserErrorKind::UnexpectedCharacter));
            }
            self.push_context(Context::array_context(indent + 1));
            return Ok(());
        }
        if !line_parser.have("-") {
            return Err(line_parser.generate_error(ParserErrorKind::expected("-")));
        }
        line_parser.consume_whitespaces();
        if line_parser.see_end_or_comment() {
            self.push_context(Context::object_context(indent + 1, String::new()));
            return Ok(());
        }
        let key = match line_parser.parse_key_with_colon() {
            Ok(key) => key,
            Err(e) => {
                return Err(e);
            },
        };
        if key.as_str().unicode_len() > 0 {
            line_parser.consume_whitespaces();
            if line_parser.see_end_or_comment() {
                self.push_context(Context::object_context(indent + 1, key));
                self.push_context(Context::object_context(indent + 1, String::new()));
                return Ok(());
            }
            match line_parser.parse_inline_array() {
                Err(e) => {
                    return Err(e);
                },
                Ok(Some(value)) => {
                    self.push_v(Value::key_value_pair(key, value));
                },
                Ok(None) => match line_parser.parse_primitive() {
                    Err(e) => {
                        return Err(e);
                    },
                    Ok(Some(primitive)) => {
                        self.push_v(Value::key_value_pair(key, Value::Primitive(primitive)));
                    },
                    Ok(None) => {
                        if line_parser.have("|") {
                            self.push_context(Context::object_context(indent + 1, key));
                            self.push_context(Context::multi_line_string_context(indent + 1));
                        } else {
                            return Err(
                                line_parser.generate_error(ParserErrorKind::UnexpectedCharacter),
                            );
                        }
                    },
                },
            }
            if line_parser.see_end_or_comment() {
                return Ok(());
            } else {
                return Err(line_parser.generate_error(ParserErrorKind::UnexpectedCharacter));
            }
        }
        if line_parser.have("|") {
            self.push_context(Context::multi_line_string_context(indent + 1));
            return Ok(());
        }
        self.process_array_values(line_parser)
    }

    /// Reads a line as the next line of the string on top of the stack, if
    /// a string is there and the line belongs to it, and tells whether it
    /// did. A string to which the line does not belong is closed.
    fn process_multi_line_string_line(&mut self, line_parser: &mut LineParser) -> (r: ParserResult<
        bool,
    >)
        requires
            old(self).wf(),
            old(line_parser).wf(),
            old(line_parser).pos() == 0,
        ensures
            final(self).wf(),
            final(line_parser).follows(old(line_parser)),
            final(self)@.line_number == old(self)@.line_number,
            match text_line(old(self)@.indention, old(self)@.stack, old(line_parser).text()) {
                TextLine::Taken { unit, stack } => r matches Ok(true) && final(self)@.indention
                    == unit && final(self)@.stack == stack,
                TextLine::Passed { stack } => r matches Ok(false) && final(self)@.indention
                    == old(self)@.indention && final(self)@.stack == stack
                    && final(line_parser).pos() == 0,
                TextLine::Refused { fault } => r matches Err(e) && e@ == old(line_parser).fault(
                    fault,
                ),
            },
    {
        let height = self.context_stack.len();
        if !self.context_stack[height - 1].is_text_context() {
            return Ok(false);
        }
        let indent = self.top_indent();
        proof {
            reveal_strlit("\t");
            assert("\t"@ =~= seq!['\t']);
            lemma_folded(self@.stack);
        }
        match self.indention {
            Some(indention) => {
                if !line_parser.have_indentions(indention, indent) {
                    self.pop_stack();
                    return Ok(false);
                }
            },
            None => {
                if line_parser.have("\t") {
                    self.indention = Some(Indention::Tabs);
                } else {
                    let (tabs_count, spaces_count) = line_parser.next_whitespaces();
                    if tabs_count > 0 && spaces_count > 0 {
                        return Err(
                            line_parser.generate_error(ParserErrorKind::MixedTabsAndSpaces),
                        );
                    }
                    if spaces_count == 0 {
                        proof {
                            let s = line_parser.text();
                            lemma_blank_end(s, 0);
                            if blank_end(s, 0) > 0 {
                                assert(s.subrange(0, 1) =~= seq![s[0]]);
                                lemma_count_of(s, ' ', 0, blank_end(s, 0), 0);
                            }
                        }
                        self.pop_stack();
                        return Ok(false);
                    }
                    self.indention = Some(Indention::Spaces(spaces_count));
                }
            },
        }
        let rest = line_parser.consume_rest();
        self.push_line(rest);
        Ok(true)
    }

    /// Reads a line, without counting it.
    fn process_line(&mut self, line: &str) -> (r: ParserResult<()>)
        requires
            old(self).wf(),
        ensures
            final(self).wf(),
            final(self)@.line_number == old(self)@.line_number,
            match step(old(self)@, line@) {
                Ok(next) => r is Ok && final(self)@.indention == next.indention
                    && final(self)@.stack == next.stack,
                Err(d) => r matches Err(e) && e@ == d,
            },
    {
        let mut line_parser = LineParser::new(self.line_number, line);
        match self.process_multi_line_string_line(&mut line_parser) {
            Err(e) => {
                return Err(e);
            },
            Ok(true) => {
                return Ok(());
            },
            Ok(false) => {},
        }
        if line_parser.see_end_or_comment() {
            return Ok(());
        }
        let (tabs_count, spaces_count) = line_parser.next_whitespaces();
        proof {
            lemma_blank_before_white(line@, 0);
            lemma_skip_white_space(line@, 0);
        }
        let indent = match self.calculate_indent(&line_parser, tabs_count, spaces_count) {
            Ok(indent) => indent,
            Err(e) => {
                return Err(e);
            },
        };
        assert(indent <= tabs_count + spaces_count) by {
            lemma_depth_bound(old(self)@.indention, tabs_count as nat, spaces_count as nat);
        }
        let max_indent = self.top_indent();
        if indent > max_indent {
            return Err(line_parser.generate_error(ParserErrorKind::InvalidIndention));
        }
        proof {
            lemma_collapsed(self@.stack, indent as nat);
        }
        self.collapse_context_to_indent(indent);
        let height = self.context_stack.len();
        if self.context_stack[height - 1].is_object_context() {
            return self.process_post_indent_object(&mut line_parser, indent);
        }
        if self.context_stack[height - 1].is_array_context() {
            return self.process_post_indent_array(&mut line_parser, indent);
        }
        Ok(())
    }

    /// Takes the next line of the document. A line that is refused is not
    /// counted, and ends the parse: what the parser then holds is well formed,
    /// and no more is said of it.
    pub fn next_line(&mut self, line: &str) -> (r: ParserResult<()>)
        requires
            old(self).wf(),
            old(self)@.line_number < usize::MAX,
        ensures
            final(self).wf(),
            match step(old(self)@, line@) {
                Ok(next) => r is Ok && final(self)@ == next,
                Err(d) => r matches Err(e) && e@ == d && final(self)@.line_number
                    == old(self)@.line_number,
            },
    {
        match self.process_line(line) {
            Ok(()) => {
                self.line_number += 1;
                Ok(())
            },
            Err(e) => Err(e),
        }
    }
}

/// Parses the text of a document into its value, an object.
pub fn parse_string(s: &str) -> (r: ParserResult<Value>)
    ensures
        match parse(s@) {
            Ok(tree) => r matches Ok(value) && value@ == tree && tree is Object && tree.wf(),
            Err(d) => r matches Err(e) && e@ == d,
        },
{
    let text = chars_of(s);
    proof {
        assert(text.len() <= usize::MAX);
        law_parsed_is_sound(s@);
    }
    let lines = lines_of(text.as_slice());
    let mut parser = Parser::new();
    let mut n: usize = 0;
    while n < lines.len()
        invariant
            n <= lines.len(),
            parser.wf(),
            parser@.line_number == n,
            rows(lines@) == split_lines(s@),
            run(State::initial(), split_lines(s@), 0) == run(parser@, split_lines(s@), n as int),
        decreases lines.len() - n,
    {
        let line = string_of(lines[n].as_slice());
        proof {
            assert(line@ == split_lines(s@)[n as int]);
        }
        match parser.next_line(line.as_str()) {
            Ok(()) => {},
            Err(e) => {
                return Err(e);
            },
        }
        n += 1;
    }
    Ok(parser.finish())
}

} // verus!
