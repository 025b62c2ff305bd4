//! What a parse reports when it stops.

use crate::indention::Indention;
use crate::text::{chars_of, decimal, push_all, push_decimal, string_of};
use vstd::prelude::*;

verus! {

/// The reasons for which a line is refused.
#[derive(Debug, PartialEq, Eq)]
pub enum ParserErrorKind {
    /// Something follows where the line had to end.
    UnexpectedCharacter,
    /// A string literal was opened and not closed on its line.
    UnclosedString,
    /// A token that had to stand here is missing.
    Expected(String),
    /// The white space at the head of the line is of another kind than the
    /// document's unit: the unit, then what was found.
    InconsistentIndention(Indention, Indention),
    /// The line lies deeper than the innermost open construct.
    InvalidIndention,
    /// The first indented line of the document begins with several tabs.
    MultipleTabIndent,
    /// The white space at the head of the line holds tabs and spaces.
    MixedTabsAndSpaces,
    /// The spaces at the head of the line are no multiple of the unit.
    SpacesNotMultipleOfIndent,
}

/// The mathematical value of a [`ParserErrorKind`].
pub enum ErrorKind {
    UnexpectedCharacter,
    UnclosedString,
    Expected(Seq<char>),
    InconsistentIndention(Indention, Indention),
    InvalidIndention,
    MultipleTabIndent,
    MixedTabsAndSpaces,
    SpacesNotMultipleOfIndent,
}

impl View for ParserErrorKind {
    type V = ErrorKind;

    open spec fn view(&self) -> ErrorKind {
        match self {
            ParserErrorKind::UnexpectedCharacter => ErrorKind::UnexpectedCharacter,
            ParserErrorKind::UnclosedString => ErrorKind::UnclosedString,
            ParserErrorKind::Expected(s) => ErrorKind::Expected(s@),
            ParserErrorKind::InconsistentIndention(a, b) => ErrorKind::InconsistentIndention(*a, *b),
            ParserErrorKind::InvalidIndention => ErrorKind::InvalidIndention,
            ParserErrorKind::MultipleTabIndent => ErrorKind::MultipleTabIndent,
            ParserErrorKind::MixedTabsAndSpaces => ErrorKind::MixedTabsAndSpaces,
            ParserErrorKind::SpacesNotMultipleOfIndent => ErrorKind::SpacesNotMultipleOfIndent,
        }
    }
}

impl ErrorKind {
    /// The sentence that describes the reason.
    pub open spec fn sentence(self) -> Seq<char> {
        match self {
            ErrorKind::UnexpectedCharacter => "unexpected character"@,
            ErrorKind::UnclosedString => "string not closed"@,
            ErrorKind::Expected(s) => "expected '"@ + s + "'"@,
            ErrorKind::InconsistentIndention(expected, found) => "inconsistent indention, expected: "@
                + expected.name() + ", but found: "@ + found.name(),
            ErrorKind::InvalidIndention => "invalid indention"@,
            ErrorKind::MultipleTabIndent => "tab indention can only use one tab"@,
            ErrorKind::MixedTabsAndSpaces => "indention of mixed tabs and spaces is not allowed"@,
            ErrorKind::SpacesNotMultipleOfIndent => "amount of spaces is not a multiple of the indention spaces"@,
        }
    }
}

impl ParserErrorKind {
    /// The reason that names the missing token `s`.
    pub fn expected(s: &str) -> (r: Self)
        ensures
            r@ == ErrorKind::Expected(s@),
    {
        ParserErrorKind::Expected(s.to_owned())
    }

    /// Appends the sentence that describes the reason to `out`.
    pub fn push_sentence(&self, out: &mut Vec<char>)
        ensures
            final(out)@ == old(out)@ + self@.sentence(),
    {
        match self {
            ParserErrorKind::UnexpectedCharacter => {
                push_all(out, chars_of("unexpected character").as_slice());
            },
            ParserErrorKind::UnclosedString => {
                push_all(out, chars_of("string not closed").as_slice());
            },
            ParserErrorKind::Expected(s) => {
                push_all(out, chars_of("expected '").as_slice());
                push_all(out, chars_of(s.as_str()).as_slice());
                push_all(out, chars_of("'").as_slice());
                proof {
                    assert(old(out)@ + "expected '"@ + s@ + "'"@ == old(out)@ + ("expected '"@ + s@
                        + "'"@));
                }
            },
            ParserErrorKind::InconsistentIndention(expected, found) => {
                push_all(out, chars_of("inconsistent indention, expected: ").as_slice());
                expected.push_name(out);
                push_all(out, chars_of(", but found: ").as_slice());
                found.push_name(out);
                proof {
                    let a = "inconsistent indention, expected: "@;
                    let b = ", but found: "@;
                    assert(old(out)@ + a + expected.name() + b + found.name() == old(out)@ + (a
                        + expected.name() + b + found.name()));
                }
            },
            ParserErrorKind::InvalidIndention => {
                push_all(out, chars_of("invalid indention").as_slice());
            },
            ParserErrorKind::MultipleTabIndent => {
                push_all(out, chars_of("tab indention can only use one tab").as_slice());
            },
            ParserErrorKind::MixedTabsAndSpaces => {
                push_all(
                    out,
                    chars_of("indention of mixed tabs and spaces is not allowed").as_slice(),
                );
            },
            ParserErrorKind::SpacesNotMultipleOfIndent => {
                push_all(
                    out,
                    chars_of(
                        "amount of spaces is not a multiple of the indention spaces",
                    ).as_slice(),
                );
            },
        }
    }
}

/// Why and where a parse stopped.
#[derive(Debug)]
pub struct ParserError {
    /// The reason.
    pub kind: ParserErrorKind,
    /// The number of the line, counted from 0.
    pub line_number: usize,
    /// The number of characters of the line that had been read.
    pub column_number: usize,
    /// The line as it was given.
    pub line: String,
}

/// The mathematical value of a [`ParserError`].
pub struct Diagnostic {
    pub kind: ErrorKind,
    pub line_number: nat,
    pub column_number: nat,
    pub line: Seq<char>,
}

impl View for ParserError {
    type V = Diagnostic;

    open spec fn view(&self) -> Diagnostic {
        Diagnostic {
            kind: self.kind@,
            line_number: self.line_number as nat,
            column_number: self.column_number as nat,
            line: self.line@,
        }
    }
}

impl Diagnostic {
    /// The message: line number, colon, column number, colon, space, and
    /// the sentence of the reason.
    pub open spec fn message(self) -> Seq<char> {
        decimal(self.line_number) + seq![':'] + decimal(self.column_number) + seq![':', ' ']
            + self.kind.sentence()
    }
}

impl ParserError {
    /// The message of the error: where it happened, then why.
    pub fn message(&self) -> (r: String)
        ensures
            r@ == self@.message(),
    {
        let mut out: Vec<char> = Vec::new();
        push_decimal(&mut out, self.line_number as u64);
        out.push(':');
        push_decimal(&mut out, self.column_number as u64);
        out.push(':');
        out.push(' ');
        self.kind.push_sentence(&mut out);
        proof {
            let a = decimal(self.line_number as nat);
            let b = decimal(self.column_number as nat);
            assert(Seq::<char>::empty() + a == a);
            assert(a.push(':') == a + seq![':']);
            assert((a + seq![':'] + b).push(':').push(' ') == a + seq![':'] + b + seq![':', ' ']);
        }
        string_of(out.as_slice())
    }
}

} // verus!
