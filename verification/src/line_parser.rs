//! The tokenizer: a cursor over the characters of one line.

use crate::error::{Diagnostic, ErrorKind, ParserError, ParserErrorKind};
use crate::grammar::{
    array_items, at_end_or_comment, bare_key_end, blank_end, boolean_literal, count_of, find,
    indent_run, inline_array, is_key_stop, key, key_with_colon, lemma_primitive, primitive,
    run_end, run_of, string_literal, Fault,
};
use crate::indention::Indention;
use crate::number::{
    choose_numeric, first_match, lemma_numeric_choice, match_text, minimal, minimal_literal,
    numeric_literal,
};
use crate::text::{
    char_is_white_space, chars_of, has_at, lemma_skip_white_space, skip_white_space, slice_has_at,
    string_of,
};
use crate::value::{items_view, lemma_array_view, PrimitiveValue, Tree, Value};
use vstd::prelude::*;
use vstd::slice::slice_subrange;

verus! {

/// What the parser and the tokenizer return: a value, or why and where the
/// line is refused.
pub type ParserResult<T> = Result<T, ParserError>;

/// A cursor over one line, which reads what stands at its position and
/// moves behind it.
pub struct LineParser<'a> {
    line_number: usize,
    line: &'a str,
    chars: Vec<char>,
    i: usize,
}

impl<'a> LineParser<'a> {
    /// The characters of the line.
    pub closed spec fn text(&self) -> Seq<char> {
        self.chars@
    }

    /// How many characters of the line have been read.
    pub closed spec fn pos(&self) -> int {
        self.i as int
    }

    /// The number of the line in its document.
    pub closed spec fn number(&self) -> nat {
        self.line_number as nat
    }

    /// The cursor holds the characters of its line.
    pub closed spec fn inv(&self) -> bool {
        self.line@ == self.chars@
    }

    /// The cursor is sound and stands within its line.
    pub open spec fn wf(&self) -> bool {
        self.inv() && 0 <= self.pos() <= self.text().len() <= usize::MAX
    }

    /// The cursor is sound and still reads the line that `before` read.
    pub open spec fn follows(&self, before: &Self) -> bool {
        self.wf() && self.text() == before.text() && self.number() == before.number()
    }

    /// The cursor follows `before` and stands at `pos`.
    pub open spec fn moved(&self, before: &Self, pos: int) -> bool {
        self.follows(before) && self.pos() == pos
    }

    /// The error that reports `f` on this line.
    pub open spec fn fault(&self, f: Fault) -> Diagnostic {
        Diagnostic {
            kind: f.kind,
            line_number: self.number(),
            column_number: f.column as nat,
            line: self.text(),
        }
    }

    /// A cursor at the start of `line`, the line with number `line_number`.
    pub fn new(line_number: usize, line: &'a str) -> (r: Self)
        ensures
            r.wf(),
            r.text() == line@,
            r.pos() == 0,
            r.number() == line_number,
    {
        let chars = chars_of(line);
        assert(chars.len() <= usize::MAX);
        Self { line_number, line, chars, i: 0 }
    }

    /// The error of kind `kind` at the position of the cursor.
    pub fn generate_error(&self, kind: ParserErrorKind) -> (e: ParserError)
        requires
            self.wf(),
        ensures
            e@ == self.fault(Fault { kind: kind@, column: self.pos() }),
    {
        ParserError {
            kind,
            line_number: self.line_number,
            column_number: self.i,
            line: self.line.to_owned(),
        }
    }

    /// Reads the rest of the line.
    pub fn consume_rest(&mut self) -> (r: String)
        requires
            old(self).wf(),
        ensures
            final(self).moved(old(self), old(self).text().len() as int),
            r@ == old(self).text().subrange(old(self).pos(), old(self).text().len() as int),
    {
        let r = string_of(slice_subrange(self.chars.as_slice(), self.i, self.chars.len()));
        self.i = self.chars.len();
        r
    }

    /// Tells whether the end of the line has been reached.
    pub fn reached_end(&self) -> (r: bool)
        requires
            self.wf(),
        ensures
            r == (self.pos() == self.text().len()),
    {
        self.i == self.chars.len()
    }

    /// Tells whether `s` stands at the position of the cursor.
    pub fn see(&mut self, s: &str) -> (r: bool)
        requires
            old(self).wf(),
        ensures
            final(self).moved(old(self), old(self).pos()),
            r == has_at(old(self).text(), old(self).pos(), s@),
    {
        let t = chars_of(s);
        slice_has_at(self.chars.as_slice(), self.i, t.as_slice())
    }

    /// Moves behind `s` where `s` stands at the position of the cursor, and
    /// tells whether it did.
    pub fn have(&mut self, s: &str) -> (r: bool)
        requires
            old(self).wf(),
        ensures
            r == has_at(old(self).text(), old(self).pos(), s@),
            final(self).moved(
                old(self),
                if r {
                    old(self).pos() + s@.len()
                } else {
                    old(self).pos()
                },
            ),
    {
        let t = chars_of(s);
        if slice_has_at(self.chars.as_slice(), self.i, t.as_slice()) {
            assert(self.i + t@.len() <= self.chars.len());
            self.i = self.i + t.len();
            true
        } else {
            false
        }
    }

    /// Tells whether one of `ss` stands at the position of the cursor.
    pub fn see_any(&mut self, ss: &[&str]) -> (r: bool)
        requires
            old(self).wf(),
        ensures
            final(self).moved(old(self), old(self).pos()),
            r == exists|k: int|
                0 <= k < ss@.len() && has_at(old(self).text(), old(self).pos(), (#[trigger] ss@[k])@),
    {
        let mut k: usize = 0;
        while k < ss.len()
            invariant
                k <= ss.len(),
                self.moved(old(self), old(self).pos()),
                forall|j: int|
                    0 <= j < k ==> !has_at(old(self).text(), old(self).pos(), (#[trigger] ss@[j])@),
            decreases ss.len() - k,
        {
            if self.see(ss[k]) {
                return true;
            }
            k += 1;
        }
        false
    }

    /// Tells whether only white space, or white space and a comment, is
    /// left of the line.
    pub fn see_end_or_comment(&self) -> (r: bool)
        requires
            self.wf(),
        ensures
            r == at_end_or_comment(self.text(), self.pos()),
    {
        let mut j = self.i;
        while j < self.chars.len() && char_is_white_space(self.chars[j])
            invariant
                self.i <= j <= self.chars.len(),
                skip_white_space(self.chars@, j as int) == skip_white_space(
                    self.chars@,
                    self.i as int,
                ),
            decreases self.chars.len() - j,
        {
            j += 1;
        }
        j == self.chars.len() || self.chars[j] == '#'
    }

    /// Moves behind one character, if one is left.
    pub fn advance(&mut self)
        requires
            old(self).wf(),
        ensures
            final(self).moved(
                old(self),
                if old(self).pos() < old(self).text().len() {
                    old(self).pos() + 1
                } else {
                    old(self).pos()
                },
            ),
    {
        if self.i < self.chars.len() {
            self.i += 1;
        }
    }

    /// Moves behind `amount` characters, or to the end of the line where
    /// fewer are left.
    pub fn advance_by(&mut self, amount: usize)
        requires
            old(self).wf(),
        ensures
            final(self).moved(
                old(self),
                if old(self).pos() + amount <= old(self).text().len() {
                    old(self).pos() + amount
                } else {
                    old(self).text().len() as int
                },
            ),
    {
        if amount <= self.chars.len() - self.i {
            self.i += amount;
        } else {
            self.i = self.chars.len();
        }
    }

    /// Reads the tabs and spaces at the position of the cursor, and returns
    /// how many tabs and how many spaces they are.
    pub fn next_whitespaces(&mut self) -> (r: (usize, usize))
        requires
            old(self).wf(),
        ensures
            final(self).moved(old(self), blank_end(old(self).text(), old(self).pos())),
            r.0 == count_of(old(self).text(), '\t', old(self).pos(), final(self).pos()),
            r.1 == count_of(old(self).text(), ' ', old(self).pos(), final(self).pos()),
            r.0 + r.1 == final(self).pos() - old(self).pos(),
    {
        let mut tabs_count: usize = 0;
        let mut spaces_count: usize = 0;
        let ghost start = self.i as int;
        while self.i < self.chars.len() && (self.chars[self.i] == ' ' || self.chars[self.i]
            == '\t')
            invariant
                self.follows(old(self)),
                start == old(self).pos(),
                start <= self.i <= self.chars.len(),
                blank_end(self.chars@, self.i as int) == blank_end(self.chars@, start),
                tabs_count == count_of(self.chars@, '\t', start, self.i as int),
                spaces_count == count_of(self.chars@, ' ', start, self.i as int),
                tabs_count + spaces_count == self.i - start,
            decreases self.chars.len() - self.i,
        {
            if self.chars[self.i] == ' ' {
                spaces_count += 1;
            } else {
                tabs_count += 1;
            }
            self.i += 1;
        }
        (tabs_count, spaces_count)
    }

    /// Moves behind the white space at the position of the cursor.
    pub fn consume_whitespaces(&mut self)
        requires
            old(self).wf(),
        ensures
            final(self).moved(old(self), skip_white_space(old(self).text(), old(self).pos())),
    {
        let ghost start = self.i as int;
        while self.i < self.chars.len() && char_is_white_space(self.chars[self.i])
            invariant
                self.follows(old(self)),
                start == old(self).pos(),
                start <= self.i <= self.chars.len(),
                skip_white_space(self.chars@, self.i as int) == skip_white_space(
                    self.chars@,
                    start,
                ),
            decreases self.chars.len() - self.i,
        {
            self.i += 1;
        }
    }

    /// Reads the rest of a string literal whose opening run of quotes ended
    /// at the position of the cursor and had `delimiter` as its text.
    fn parse_string_literal_with(&mut self, delimiter: &[char]) -> (r: ParserResult<String>)
        requires
            old(self).wf(),
            delimiter@.len() > 0,
        ensures
            final(self).follows(old(self)),
            ({
                let s = old(self).text();
                let close = find(s, delimiter@, old(self).pos());
                match r {
                    Ok(content) => close < s.len() && content@ == s.subrange(old(self).pos(), close)
                        && final(self).pos() == close + delimiter@.len(),
                    Err(e) => {
                        &&& close == s.len()
                        &&& final(self).pos() == s.len()
                        &&& e@ == old(self).fault(
                            Fault { kind: ErrorKind::UnclosedString, column: s.len() as int },
                        )
                    },
                }
            }),
    {
        let start = self.i;
        loop
            invariant
                self.follows(old(self)),
                start == old(self).pos(),
                start <= self.i <= self.chars.len(),
                delimiter@.len() > 0,
                find(self.chars@, delimiter@, self.i as int) == find(
                    self.chars@,
                    delimiter@,
                    start as int,
                ),
            decreases self.chars.len() - self.i,
        {
            if self.i == self.chars.len() {
                return Err(self.generate_error(ParserErrorKind::UnclosedString));
            }
            if slice_has_at(self.chars.as_slice(), self.i, delimiter) {
                let content = string_of(slice_subrange(self.chars.as_slice(), start, self.i));
                self.i = self.i + delimiter.len();
                return Ok(content);
            }
            self.i += 1;
        }
    }

    /// Reads a string literal, if one stands at the position of the cursor.
    pub fn parse_string_literal(&mut self) -> (r: ParserResult<Option<String>>)
        requires
            old(self).wf(),
        ensures
            final(self).follows(old(self)),
            match string_literal(old(self).text(), old(self).pos()) {
                Ok(Some((content, end))) => r matches Ok(Some(c)) && c@ == content
                    && final(self).pos() == end,
                Ok(None) => r matches Ok(None) && final(self).pos() == old(self).pos(),
                Err(f) => r matches Err(e) && e@ == old(self).fault(f) && final(self).pos()
                    == f.column,
            },
    {
        if self.i < self.chars.len() && (self.chars[self.i] == '\'' || self.chars[self.i]
            == '"') {
            let quote = self.chars[self.i];
            let start = self.i;
            let mut delimiter: Vec<char> = Vec::new();
            while self.i < self.chars.len() && self.chars[self.i] == quote
                invariant
                    self.follows(old(self)),
                    start == old(self).pos(),
                    start <= self.i <= self.chars.len(),
                    run_end(self.chars@, quote, self.i as int) == run_end(
                        self.chars@,
                        quote,
                        start as int,
                    ),
                    delimiter@ == self.chars@.subrange(start as int, self.i as int),
                decreases self.chars.len() - self.i,
            {
                delimiter.push(quote);
                proof {
                    assert(self.chars@.subrange(start as int, self.i + 1) == self.chars@.subrange(
                        start as int,
                        self.i as int,
                    ).push(quote));
                }
                self.i += 1;
            }
            match self.parse_string_literal_with(delimiter.as_slice()) {
                Ok(content) => Ok(Some(content)),
                Err(e) => Err(e),
            }
        } else {
            Ok(None)
        }
    }

    /// Reads a key: a string literal, or the characters up to the first
    /// that ends a key.
    pub fn parse_key(&mut self) -> (r: ParserResult<String>)
        requires
            old(self).wf(),
        ensures
            final(self).follows(old(self)),
            match key(old(self).text(), old(self).pos()) {
                Ok((k, end)) => r matches Ok(t) && t@ == k && final(self).pos() == end,
                Err(f) => r matches Err(e) && e@ == old(self).fault(f) && final(self).pos()
                    == f.column,
            },
    {
        match self.parse_string_literal() {
            Err(e) => Err(e),
            Ok(Some(literal)) => Ok(literal),
            Ok(None) => {
                let start = self.i;
                while self.i < self.chars.len() && !Self::ends_key(self.chars[self.i])
                    invariant
                        self.follows(old(self)),
                        start == old(self).pos(),
                        start <= self.i <= self.chars.len(),
                        bare_key_end(self.chars@, self.i as int) == bare_key_end(
                            self.chars@,
                            start as int,
                        ),
                    decreases self.chars.len() - self.i,
                {
                    self.i += 1;
                }
                Ok(string_of(slice_subrange(self.chars.as_slice(), start, self.i)))
            },
        }
    }

    fn ends_key(c: char) -> (r: bool)
        ensures
            r == is_key_stop(c),
    {
        c == ' ' || c == '\t' || c == ':' || c == '#' || c == ';'
    }

    /// Reads a key that is followed, after white space, by a colon, and the
    /// colon. Where no colon follows, the cursor stays and the key is empty.
    pub fn parse_key_with_colon(&mut self) -> (r: ParserResult<String>)
        requires
            old(self).wf(),
        ensures
            final(self).follows(old(self)),
            match key_with_colon(old(self).text(), old(self).pos()) {
                Ok((k, end)) => r matches Ok(t) && t@ == k && final(self).pos() == end,
                Err(f) => r matches Err(e) && e@ == old(self).fault(f) && final(self).pos()
                    == f.column,
            },
    {
        let start = self.i;
        let key = match self.parse_key() {
            Ok(key) => key,
            Err(e) => {
                return Err(e);
            },
        };
        self.consume_whitespaces();
        if self.i < self.chars.len() && self.chars[self.i] == ':' {
            proof {
                assert(self.chars@.subrange(self.i as int, self.i + 1) == seq![':']);
            }
            self.i += 1;
            Ok(key)
        } else {
            proof {
                if has_at(self.chars@, self.i as int, seq![':']) {
                    assert(self.chars@.subrange(self.i as int, self.i + 1)[0] == ':');
                }
            }
            self.i = start;
            Ok(String::new())
        }
    }

    /// Reads a numeric literal, if one stands at the position of the
    /// cursor, and returns the shortest literal that denotes its number.
    pub fn parse_numerical_literal(&mut self) -> (r: Option<String>)
        requires
            old(self).wf(),
        ensures
            final(self).follows(old(self)),
            match numeric_literal(old(self).text(), old(self).pos()) {
                Some(m) => r matches Some(t) && t@ == minimal(m) && final(self).pos()
                    == old(self).pos() + m.len(),
                None => r is None && final(self).pos() == old(self).pos(),
            },
    {
        let rest = string_of(slice_subrange(self.chars.as_slice(), self.i, self.chars.len()));
        let found = first_match("^-?[0-9]*(?:\\.[0-9]+)?", rest.as_str());
        proof {
            lemma_numeric_choice(self.chars@, self.i as int, match_text(found));
        }
        match choose_numeric(self.chars.as_slice(), self.i, &found) {
            Some(m) => {
                self.i = self.i + m.len();
                Some(string_of(minimal_literal(m.as_slice()).as_slice()))
            },
            None => None,
        }
    }

    /// Reads `true` or `false`, if one stands at the position of the cursor.
    pub fn parse_boolean_literal(&mut self) -> (r: Option<bool>)
        requires
            old(self).wf(),
        ensures
            final(self).follows(old(self)),
            match boolean_literal(old(self).text(), old(self).pos()) {
                Some((b, end)) => r == Some(b) && final(self).pos() == end,
                None => r is None && final(self).pos() == old(self).pos(),
            },
    {
        if self.have("true") {
            Some(true)
        } else if self.have("false") {
            Some(false)
        } else {
            None
        }
    }

    /// Reads `null`, if it stands at the position of the cursor.
    pub fn parse_null_literal(&mut self) -> (r: bool)
        requires
            old(self).wf(),
        ensures
            r == has_at(old(self).text(), old(self).pos(), "null"@),
            final(self).moved(
                old(self),
                if r {
                    old(self).pos() + "null"@.len()
                } else {
                    old(self).pos()
                },
            ),
    {
        self.have("null")
    }

    /// Reads the items of an array written on one line, whose `[` has been
    /// read, up to its `]`.
    fn next_inline_array(&mut self) -> (r: ParserResult<Value>)
        requires
            old(self).wf(),
        ensures
            final(self).follows(old(self)),
            match array_items(old(self).text(), old(self).pos(), Seq::empty()) {
                Ok((v, end)) => r matches Ok(value) && value@ == v && final(self).pos() == end
                    && old(self).pos() < end,
                Err(f) => r matches Err(e) && e@ == old(self).fault(f) && final(self).pos()
                    == f.column,
            },
        decreases old(self).text().len() - old(self).pos(),
    {
        let mut values: Vec<Value> = Vec::new();
        let ghost s = self.chars@;
        let ghost start = self.i as int;
        proof {
            assert(items_view(values@) =~= Seq::<Tree>::empty());
        }
        loop
            invariant
                self.follows(old(self)),
                s == old(self).text(),
                start == old(self).pos(),
                start <= self.pos(),
                array_items(s, start, Seq::empty()) == array_items(
                    s,
                    self.pos(),
                    items_view(values@),
                ),
            decreases s.len() - self.pos(),
        {
            let ghost at = self.pos();
            let ghost so_far = items_view(values@);
            self.consume_whitespaces();
            proof {
                lemma_skip_white_space(s, at);
                lemma_primitive(s, self.pos());
            }
            if self.have("]") {
                proof {
                    reveal_strlit("]");
                    assert("]"@ =~= seq![']']);
                    lemma_array_view(values);
                }
                return Ok(Value::Array(values));
            }
            proof {
                reveal_strlit("]");
                assert("]"@ =~= seq![']']);
                reveal_strlit("[");
                assert("["@ =~= seq!['[']);
            }
            if self.have("[") {
                match self.next_inline_array() {
                    Ok(inner) => {
                        values.push(inner);
                        proof {
                            assert(items_view(values@) =~= so_far.push(inner@));
                        }
                    },
                    Err(e) => {
                        return Err(e);
                    },
                }
            } else {
                match self.parse_primitive() {
                    Ok(Some(p)) => {
                        values.push(Value::Primitive(p));
                        proof {
                            assert(items_view(values@) =~= so_far.push(Tree::Primitive(p@)));
                        }
                    },
                    Ok(None) => {
                        return Err(self.generate_error(ParserErrorKind::expected("]")));
                    },
                    Err(e) => {
                        return Err(e);
                    },
                }
            }
        }
    }

    /// Reads an array written on one line, if one stands at the position of
    /// the cursor.
    pub fn parse_inline_array(&mut self) -> (r: ParserResult<Option<Value>>)
        requires
            old(self).wf(),
        ensures
            final(self).follows(old(self)),
            match inline_array(old(self).text(), old(self).pos()) {
                Ok(Some((v, end))) => r matches Ok(Some(value)) && value@ == v
                    && final(self).pos() == end,
                Ok(None) => r matches Ok(None) && final(self).pos() == old(self).pos(),
                Err(f) => r matches Err(e) && e@ == old(self).fault(f) && final(self).pos()
                    == f.column,
            },
    {
        proof {
            reveal_strlit("[");
            assert("["@ =~= seq!['[']);
        }
        if self.have("[") {
            match self.next_inline_array() {
                Ok(value) => Ok(Some(value)),
                Err(e) => Err(e),
            }
        } else {
            Ok(None)
        }
    }

    /// Reads a primitive, if one stands at the position of the cursor.
    pub fn parse_primitive(&mut self) -> (r: ParserResult<Option<PrimitiveValue>>)
        requires
            old(self).wf(),
        ensures
            final(self).follows(old(self)),
            match primitive(old(self).text(), old(self).pos()) {
                Ok(Some((p, end))) => r matches Ok(Some(value)) && value@ == p
                    && final(self).pos() == end,
                Ok(None) => r matches Ok(None) && final(self).pos() == old(self).pos(),
                Err(f) => r matches Err(e) && e@ == old(self).fault(f) && final(self).pos()
                    == f.column,
            },
    {
        match self.parse_string_literal() {
            Err(e) => {
                return Err(e);
            },
            Ok(Some(value)) => {
                return Ok(Some(PrimitiveValue::String(value)));
            },
            Ok(None) => {},
        }
        if let Some(value) = self.parse_numerical_literal() {
            Ok(Some(PrimitiveValue::Number(value)))
        } else if let Some(value) = self.parse_boolean_literal() {
            Ok(Some(PrimitiveValue::Boolean(value)))
        } else if self.parse_null_literal() {
            Ok(Some(PrimitiveValue::Null))
        } else {
            Ok(None)
        }
    }

    /// Tells whether the next `count` characters are all `c`.
    fn have_run(&self, c: char, count: usize) -> (r: bool)
        requires
            self.wf(),
        ensures
            r == has_at(self.text(), self.pos(), run_of(c, count as nat)),
    {
        if count > self.chars.len() - self.i {
            return false;
        }
        let mut k: usize = 0;
        while k < count
            invariant
                self.wf(),
                k <= count,
                self.i + count <= self.chars.len(),
                forall|j: int| self.i <= j < self.i + k ==> #[trigger] self.chars@[j] == c,
            decreases count - k,
        {
            if self.chars[self.i + k] != c {
                proof {
                    let run = run_of(c, count as nat);
                    assert(self.chars@.subrange(self.i as int, self.i + count)[k as int]
                        != run[k as int]);
                }
                return false;
            }
            k += 1;
        }
        proof {
            assert(self.chars@.subrange(self.i as int, self.i + count) =~= run_of(
                c,
                count as nat,
            ));
        }
        true
    }

    /// Tells whether the white space of `amount` levels stands at the
    /// position of the cursor.
    fn have_indentions_helper(&self, indention: Indention, amount: usize) -> (r: Option<usize>)
        requires
            self.wf(),
        ensures
            match r {
                Some(n) => n == indent_run(indention, amount as nat).len() && has_at(
                    self.text(),
                    self.pos(),
                    indent_run(indention, amount as nat),
                ),
                None => !has_at(self.text(), self.pos(), indent_run(indention, amount as nat)),
            },
    {
        match indention {
            Indention::Tabs => {
                assert(run_of('\t', amount as nat).len() == amount);
                if self.have_run('\t', amount) {
                    Some(amount)
                } else {
                    None
                }
            },
            Indention::Spaces(spaces) => {
                match amount.checked_mul(spaces) {
                    Some(total) => {
                        assert(total as nat == amount as nat * spaces as nat);
                        assert(run_of(' ', total as nat).len() == total);
                        if self.have_run(' ', total) {
                            Some(total)
                        } else {
                            None
                        }
                    },
                    None => {
                        assert(indent_run(indention, amount as nat).len() > usize::MAX);
                        assert(self.chars.len() <= usize::MAX);
                        None
                    },
                }
            },
        }
    }

    /// Moves behind the white space of `amount` levels where it stands at
    /// the position of the cursor, and tells whether it did.
    pub fn have_indentions(&mut self, indention: Indention, amount: usize) -> (r: bool)
        requires
            old(self).wf(),
        ensures
            r == has_at(old(self).text(), old(self).pos(), indent_run(indention, amount as nat)),
            final(self).moved(
                old(self),
                if r {
                    old(self).pos() + indent_run(indention, amount as nat).len()
                } else {
                    old(self).pos()
                },
            ),
    {
        match self.have_indentions_helper(indention, amount) {
            Some(n) => {
                assert(self.i + n <= self.chars.len());
                self.i = self.i + n;
                true
            },
            None => false,
        }
    }
}

} // verus!
