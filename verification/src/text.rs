//! Text as a sequence of characters: white space, prefixes, lines.

use vstd::prelude::*;
use vstd::std_specs::iter::IteratorSpec;

verus! {

/// The characters with the Unicode property `White_Space`.
pub open spec fn is_white_space(c: char) -> bool {
    let n = c as u32;
    ||| 0x9 <= n <= 0xd
    ||| n == 0x20
    ||| n == 0x85
    ||| n == 0xa0
    ||| n == 0x1680
    ||| 0x2000 <= n <= 0x200a
    ||| n == 0x2028
    ||| n == 0x2029
    ||| n == 0x202f
    ||| n == 0x205f
    ||| n == 0x3000
}

/// Tells whether `c` is white space.
pub fn char_is_white_space(c: char) -> (r: bool)
    ensures
        r == is_white_space(c),
{
    let n: u32 = c as u32;
    (0x9 <= n && n <= 0xd) || n == 0x20 || n == 0x85 || n == 0xa0 || n == 0x1680 || (0x2000 <= n
        && n <= 0x200a) || n == 0x2028 || n == 0x2029 || n == 0x202f || n == 0x205f || n == 0x3000
}

/// The characters of `s`, in order.
pub fn chars_of(s: &str) -> (v: Vec<char>)
    ensures
        v@ == s@,
{
    broadcast use vstd::string::group_string_axioms;

    let mut v: Vec<char> = Vec::new();
    let mut it = s.chars();
    loop
        invariant
            v@ + it.remaining() == s@,
            it.decrease() is Some,
        ensures
            v@ == s@,
        decreases it.decrease()->0,
    {
        match it.next() {
            Some(c) => {
                v.push(c);
            },
            None => {
                assert(v@ + it.remaining() == v@);
                break ;
            },
        }
    }
    v
}

/// `String::from_iter` over the characters of a slice: the string that
/// holds exactly the characters of `chars`, in order.
#[verifier::external_body]
pub(crate) fn string_of(chars: &[char]) -> (s: String)
    ensures
        s@ == chars@,
{
    String::from_iter(chars.iter())
}

/// Whether `t` stands in `s` at position `i`.
pub open spec fn has_at(s: Seq<char>, i: int, t: Seq<char>) -> bool {
    0 <= i && i + t.len() <= s.len() && s.subrange(i, i + t.len()) == t
}

/// Tells whether `t` stands in `s` at position `i`.
pub fn slice_has_at(s: &[char], i: usize, t: &[char]) -> (r: bool)
    ensures
        r == has_at(s@, i as int, t@),
{
    if i > s.len() || t.len() > s.len() - i {
        return false;
    }
    let mut k: usize = 0;
    while k < t.len()
        invariant
            i + t.len() <= s.len(),
            k <= t.len(),
            s@.subrange(i as int, i + k) == t@.take(k as int),
        decreases t.len() - k,
    {
        if s[i + k] != t[k] {
            proof {
                let full = s@.subrange(i as int, i + t.len());
                assert(full[k as int] == s@[i + k]);
            }
            return false;
        }
        proof {
            assert(s@.subrange(i as int, i + k + 1) == s@.subrange(i as int, i + k).push(
                s@[i + k],
            ));
            assert(t@.take(k + 1) == t@.take(k as int).push(t@[k as int]));
        }
        k += 1;
    }
    proof {
        assert(t@.take(t.len() as int) == t@);
    }
    true
}

/// The first position at or after `i` whose character is not white space,
/// or the end of `s`.
pub open spec fn skip_white_space(s: Seq<char>, i: int) -> int
    decreases s.len() - i,
{
    if 0 <= i < s.len() && is_white_space(s[i]) {
        skip_white_space(s, i + 1)
    } else {
        i
    }
}

/// `skip_white_space` moves forward, stays within the text, and stops at
/// the first character that is not white space.
pub proof fn lemma_skip_white_space(s: Seq<char>, i: int)
    requires
        0 <= i <= s.len(),
    ensures
        i <= skip_white_space(s, i) <= s.len(),
        forall|k: int| i <= k < skip_white_space(s, i) ==> is_white_space(#[trigger] s[k]),
        skip_white_space(s, i) < s.len() ==> !is_white_space(s[skip_white_space(s, i)]),
    decreases s.len() - i,
{
    if i < s.len() && is_white_space(s[i]) {
        lemma_skip_white_space(s, i + 1);
    }
}

/// The position of the first line feed at or after `i`, or the end of `s`.
pub open spec fn line_end(s: Seq<char>, i: int) -> int
    decreases s.len() - i,
{
    if 0 <= i < s.len() && s[i] != '\n' {
        line_end(s, i + 1)
    } else {
        i
    }
}

/// `line` without a carriage return at its end.
pub open spec fn strip_cr(line: Seq<char>) -> Seq<char> {
    if line.len() > 0 && line.last() == '\r' {
        line.drop_last()
    } else {
        line
    }
}

/// The lines of `s` from position `i` on. A line ends at a line feed, or at
/// a carriage return directly before one; neither belongs to the line. What
/// follows the last line feed is a line only if it is not empty.
pub open spec fn lines_from(s: Seq<char>, i: int) -> Seq<Seq<char>>
    decreases s.len() - i,
{
    if 0 <= i < s.len() {
        let e = line_end(s, i);
        if i <= e < s.len() {
            seq![strip_cr(s.subrange(i, e))] + lines_from(s, e + 1)
        } else {
            seq![s.subrange(i, s.len() as int)]
        }
    } else {
        Seq::empty()
    }
}

/// The lines of `s`.
pub open spec fn split_lines(s: Seq<char>) -> Seq<Seq<char>> {
    lines_from(s, 0)
}

/// No line is longer than the text, and no line holds a line feed.
pub proof fn lemma_lines_from(s: Seq<char>, i: int)
    requires
        0 <= i <= s.len(),
    ensures
        forall|k: int|
            0 <= k < lines_from(s, i).len() ==> (#[trigger] lines_from(s, i)[k]).len() <= s.len()
                && !lines_from(s, i)[k].contains('\n'),
    decreases s.len() - i,
{
    if i < s.len() {
        let e = line_end(s, i);
        lemma_line_end(s, i);
        if e < s.len() {
            lemma_lines_from(s, e + 1);
            let first = strip_cr(s.subrange(i, e));
            let rest = lines_from(s, e + 1);
            assert forall|k: int| 0 <= k < lines_from(s, i).len() implies (#[trigger] lines_from(
                s,
                i,
            )[k]).len() <= s.len() && !lines_from(s, i)[k].contains('\n') by {
                if k == 0 {
                    assert(lines_from(s, i)[0] == first);
                    if first.contains('\n') {
                        let j = choose|j: int| 0 <= j < first.len() && first[j] == '\n';
                        assert(s[i + j] == '\n');
                    }
                } else {
                    assert(lines_from(s, i)[k] == rest[k - 1]);
                }
            }
        } else {
            let only = s.subrange(i, s.len() as int);
            assert(lines_from(s, i) =~= seq![only]);
            if only.contains('\n') {
                let j = choose|j: int| 0 <= j < only.len() && only[j] == '\n';
                assert(s[i + j] == '\n');
            }
        }
    }
}

/// `line_end` moves forward and stays within the text.
pub proof fn lemma_line_end(s: Seq<char>, i: int)
    requires
        0 <= i <= s.len(),
    ensures
        i <= line_end(s, i) <= s.len(),
        forall|k: int| i <= k < line_end(s, i) ==> #[trigger] s[k] != '\n',
        line_end(s, i) < s.len() ==> s[line_end(s, i)] == '\n',
    decreases s.len() - i,
{
    if i < s.len() && s[i] != '\n' {
        lemma_line_end(s, i + 1);
    }
}

/// The texts that the vectors of `lines` hold.
pub open spec fn rows(lines: Seq<Vec<char>>) -> Seq<Seq<char>> {
    Seq::new(lines.len(), |i: int| lines[i]@)
}

/// The lines of `s`, each as a vector of its characters.
pub fn lines_of(s: &[char]) -> (out: Vec<Vec<char>>)
    ensures
        rows(out@) == split_lines(s@),
{
    let mut out: Vec<Vec<char>> = Vec::new();
    let ghost mut done: Seq<Seq<char>> = Seq::empty();
    let mut i: usize = 0;
    while i < s.len()
        invariant
            i <= s.len(),
            done + lines_from(s@, i as int) == split_lines(s@),
            out@.len() == done.len(),
            forall|k: int| 0 <= k < out@.len() ==> (#[trigger] out@[k])@ == done[k],
        decreases s.len() - i,
    {
        let mut line: Vec<char> = Vec::new();
        let mut e: usize = i;
        while e < s.len() && s[e] != '\n'
            invariant
                i <= e <= s.len(),
                line@ == s@.subrange(i as int, e as int),
                line_end(s@, e as int) == line_end(s@, i as int),
            decreases s.len() - e,
        {
            line.push(s[e]);
            proof {
                assert(s@.subrange(i as int, e + 1) == s@.subrange(i as int, e as int).push(
                    s@[e as int],
                ));
            }
            e += 1;
        }
        assert(e == line_end(s@, i as int));
        let ghost before = done;
        if e < s.len() {
            let n = line.len();
            if n > 0 && line[n - 1] == '\r' {
                line.pop();
            }
            proof {
                done = done.push(line@);
                assert(before + (seq![line@] + lines_from(s@, e + 1)) == done + lines_from(
                    s@,
                    e + 1,
                ));
            }
            out.push(line);
            i = e + 1;
        } else {
            proof {
                done = done.push(line@);
                assert(lines_from(s@, e as int) == Seq::<Seq<char>>::empty());
                assert(before + seq![line@] == done + lines_from(s@, e as int));
            }
            out.push(line);
            i = e;
        }
    }
    proof {
        assert(done + Seq::<Seq<char>>::empty() == done);
        assert(rows(out@) =~= done);
    }
    out
}

/// The lines joined by single line feeds: nothing before the first line and
/// nothing after the last.
pub open spec fn join_lines(lines: Seq<Seq<char>>) -> Seq<char>
    decreases lines.len(),
{
    if lines.len() == 0 {
        Seq::empty()
    } else if lines.len() == 1 {
        lines[0]
    } else {
        join_lines(lines.drop_last()) + seq!['\n'] + lines.last()
    }
}

/// The lines that are not empty, in order.
pub open spec fn without_empty(lines: Seq<Seq<char>>) -> Seq<Seq<char>>
    decreases lines.len(),
{
    if lines.len() == 0 {
        lines
    } else {
        let rest = without_empty(lines.drop_last());
        if lines.last().len() > 0 {
            rest.push(lines.last())
        } else {
            rest
        }
    }
}

/// The lines of `lines` that are not empty, joined by single line feeds.
pub fn join_filled(lines: &Vec<Vec<char>>) -> (out: Vec<char>)
    ensures
        out@ == join_lines(without_empty(rows(lines@))),
{
    let mut out: Vec<char> = Vec::new();
    let mut first = true;
    let mut i: usize = 0;
    let ghost all = rows(lines@);
    proof {
        assert(all.take(0) =~= Seq::<Seq<char>>::empty());
    }
    while i < lines.len()
        invariant
            i <= lines.len(),
            all == rows(lines@),
            first == (without_empty(all.take(i as int)).len() == 0),
            out@ == join_lines(without_empty(all.take(i as int))),
        decreases lines.len() - i,
    {
        let ghost kept = without_empty(all.take(i as int));
        proof {
            assert(all.take(i + 1).drop_last() =~= all.take(i as int));
            assert(all.take(i + 1).last() == lines@[i as int]@);
        }
        if lines[i].len() > 0 {
            if !first {
                out.push('\n');
            }
            push_all(&mut out, lines[i].as_slice());
            proof {
                let next = kept.push(lines@[i as int]@);
                assert(without_empty(all.take(i + 1)) == next);
                assert(next.drop_last() =~= kept);
                if kept.len() == 0 {
                    assert(Seq::<char>::empty() + lines@[i as int]@ == lines@[i as int]@);
                } else {
                    assert(join_lines(kept).push('\n') == join_lines(kept) + seq!['\n']);
                }
            }
            first = false;
        }
        i += 1;
    }
    proof {
        assert(all.take(lines.len() as int) =~= all);
    }
    out
}

/// Appends the characters of `t` to `out`.
pub fn push_all(out: &mut Vec<char>, t: &[char])
    ensures
        final(out)@ == old(out)@ + t@,
{
    let mut k: usize = 0;
    while k < t.len()
        invariant
            k <= t.len(),
            out@ == old(out)@ + t@.take(k as int),
        decreases t.len() - k,
    {
        out.push(t[k]);
        proof {
            assert(t@.take(k + 1) == t@.take(k as int).push(t@[k as int]));
        }
        k += 1;
    }
    proof {
        assert(t@.take(t.len() as int) == t@);
    }
}

/// The decimal digit that stands for `d`.
pub open spec fn digit_char(d: nat) -> char {
    if d == 0 {
        '0'
    } else if d == 1 {
        '1'
    } else if d == 2 {
        '2'
    } else if d == 3 {
        '3'
    } else if d == 4 {
        '4'
    } else if d == 5 {
        '5'
    } else if d == 6 {
        '6'
    } else if d == 7 {
        '7'
    } else if d == 8 {
        '8'
    } else {
        '9'
    }
}

/// `n` in decimal digits, without leading zeros.
pub open spec fn decimal(n: nat) -> Seq<char>
    decreases n,
{
    if n < 10 {
        seq![digit_char(n)]
    } else {
        decimal(n / 10).push(digit_char(n % 10))
    }
}

fn digit_of(d: u64) -> (c: char)
    requires
        d < 10,
    ensures
        c == digit_char(d as nat),
{
    if d == 0 {
        '0'
    } else if d == 1 {
        '1'
    } else if d == 2 {
        '2'
    } else if d == 3 {
        '3'
    } else if d == 4 {
        '4'
    } else if d == 5 {
        '5'
    } else if d == 6 {
        '6'
    } else if d == 7 {
        '7'
    } else if d == 8 {
        '8'
    } else {
        '9'
    }
}

/// Appends `n` in decimal digits to `out`.
pub fn push_decimal(out: &mut Vec<char>, n: u64)
    ensures
        final(out)@ == old(out)@ + decimal(n as nat),
    decreases n,
{
    if n < 10 {
        out.push(digit_of(n));
        proof {
            assert(old(out)@.push(digit_char(n as nat)) == old(out)@ + decimal(n as nat));
        }
    } else {
        push_decimal(out, n / 10);
        let ghost mid = out@;
        out.push(digit_of(n % 10));
        proof {
            assert(mid.push(digit_char((n % 10) as nat)) == old(out)@ + decimal(n as nat));
        }
    }
}

} // verus!
