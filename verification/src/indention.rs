//! The unit of white space that stands for one level of nesting.

use crate::text::{chars_of, decimal, push_all, push_decimal, string_of};
use vstd::prelude::*;

verus! {

/// The indents of a document: one tab per level, or a fixed number of
/// spaces per level.
#[derive(Debug, Clone, Copy, PartialEq, Eq, Structural)]
pub enum Indention {
    Tabs,
    Spaces(usize),
}

impl Indention {
    /// A unit of spaces holds at least one space.
    pub open spec fn wf(&self) -> bool {
        match self {
            Indention::Tabs => true,
            Indention::Spaces(n) => *n >= 1,
        }
    }

    /// The white space of one level.
    pub open spec fn unit(&self) -> Seq<char> {
        match self {
            Indention::Tabs => seq!['\t'],
            Indention::Spaces(n) => Seq::new(*n as nat, |i: int| ' '),
        }
    }

    /// The name of the unit as it stands in messages: `tabs`, or `spaces:`
    /// and the number of spaces.
    pub open spec fn name(&self) -> Seq<char> {
        match self {
            Indention::Tabs => "tabs"@,
            Indention::Spaces(n) => "spaces:"@ + decimal(*n as nat),
        }
    }

    /// The white space of one level, as characters.
    pub fn unit_chars(&self) -> (r: Vec<char>)
        ensures
            r@ == self.unit(),
    {
        let mut r: Vec<char> = Vec::new();
        match self {
            Indention::Tabs => {
                r.push('\t');
            },
            Indention::Spaces(n) => {
                let mut k: usize = 0;
                while k < *n
                    invariant
                        k <= *n,
                        r@ == Seq::new(k as nat, |i: int| ' '),
                    decreases *n - k,
                {
                    r.push(' ');
                    k += 1;
                }
            },
        }
        r
    }

    /// Appends the name of the unit to `out`.
    pub fn push_name(&self, out: &mut Vec<char>)
        ensures
            final(out)@ == old(out)@ + self.name(),
    {
        match self {
            Indention::Tabs => {
                let t = chars_of("tabs");
                push_all(out, t.as_slice());
            },
            Indention::Spaces(n) => {
                let t = chars_of("spaces:");
                push_all(out, t.as_slice());
                push_decimal(out, *n as u64);
                proof {
                    assert(old(out)@ + "spaces:"@ + decimal(*n as nat) == old(out)@ + ("spaces:"@
                        + decimal(*n as nat)));
                }
            },
        }
    }

    /// The name of the unit: `tabs`, or `spaces:` and the number of spaces.
    pub fn to_text(&self) -> (r: String)
        ensures
            r@ == self.name(),
    {
        let mut out: Vec<char> = Vec::new();
        self.push_name(&mut out);
        string_of(out.as_slice())
    }
}

impl Default for Indention {
    fn default() -> (r: Self)
        ensures
            r == Indention::Tabs,
    {
        Indention::Tabs
    }
}

} // verus!
