//! Trimming, prefixes and columns.

use crate::float_display::push_chars;
use crate::text::chars_of;
use crate::unicode::is_space;
use vstd::prelude::*;
use vstd::string::StringExecFns;

verus! {

/// A text without the white space at its start.
pub open spec fn trimmed_start(s: Seq<char>) -> Seq<char>
    decreases s.len(),
{
    if s.len() > 0 && is_space(s[0]) {
        trimmed_start(s.skip(1))
    } else {
        s
    }
}

/// A text without the white space at its end.
pub open spec fn trimmed_end(s: Seq<char>) -> Seq<char>
    decreases s.len(),
{
    if s.len() > 0 && is_space(s.last()) {
        trimmed_end(s.drop_last())
    } else {
        s
    }
}

/// A text without the white space at both ends.
pub open spec fn trimmed(s: Seq<char>) -> Seq<char> {
    trimmed_end(trimmed_start(s))
}

fn part(chars: &Vec<char>, start: usize, end: usize) -> (r: String)
    requires
        start <= end <= chars.len(),
    ensures
        r@ == chars@.subrange(start as int, end as int),
{
    let mut out = String::new();
    push_chars(&mut out, chars, start, end);
    assert(out@ =~= chars@.subrange(start as int, end as int));
    out
}

/// Removes the white space at both ends of a text.
pub fn trim(s: &str) -> (r: String)
    ensures
        r@ == trimmed(s@),
{
    let chars = chars_of(s);
    let ghost all = s@;
    let mut start: usize = 0;
    assert(all.skip(0) =~= all);
    while start < chars.len() && chars[start].is_whitespace()
        invariant
            start <= chars.len(),
            chars@ == all,
            trimmed_start(all) == trimmed_start(all.skip(start as int)),
        decreases chars.len() - start,
    {
        proof {
            let t = all.skip(start as int);
            assert(t[0] == all[start as int]);
            assert(t.skip(1) =~= all.skip(start + 1));
        }
        start += 1;
    }
    let ghost rest = all.skip(start as int);
    proof {
        if start < chars.len() {
            assert(rest[0] == all[start as int]);
        }
        assert(trimmed_start(all) == rest);
    }
    let mut end: usize = chars.len();
    assert(all.subrange(start as int, end as int) =~= rest);
    while end > start && chars[end - 1].is_whitespace()
        invariant
            start <= end <= chars.len(),
            chars@ == all,
            trimmed_end(rest) == trimmed_end(all.subrange(start as int, end as int)),
        decreases end,
    {
        proof {
            let t = all.subrange(start as int, end as int);
            assert(t.last() == all[end - 1]);
            assert(t.drop_last() =~= all.subrange(start as int, end - 1));
        }
        end -= 1;
    }
    proof {
        let t = all.subrange(start as int, end as int);
        if end > start {
            assert(t.last() == all[end - 1]);
        }
        assert(trimmed_end(rest) == t);
    }
    part(&chars, start, end)
}

/// Whether a text begins with another.
pub open spec fn begins(s: Seq<char>, prefix: Seq<char>) -> bool {
    prefix.len() <= s.len() && s.take(prefix.len() as int) == prefix
}

/// What follows a prefix of a text, if the text begins with it.
pub open spec fn after(s: Seq<char>, prefix: Seq<char>) -> Option<Seq<char>> {
    if begins(s, prefix) {
        Some(s.skip(prefix.len() as int))
    } else {
        None
    }
}

/// What follows a prefix of a text, if the text begins with it.
pub fn strip(s: &str, prefix: &str) -> (r: Option<String>)
    ensures
        match r {
            Some(rest) => after(s@, prefix@) == Some(rest@),
            None => after(s@, prefix@) is None,
        },
{
    let a = chars_of(s);
    let b = chars_of(prefix);
    if b.len() > a.len() {
        return None;
    }
    let mut i: usize = 0;
    while i < b.len()
        invariant
            i <= b.len() <= a.len(),
            a@ == s@,
            b@ == prefix@,
            forall|j: int| 0 <= j < i ==> a@[j] == b@[j],
        decreases b.len() - i,
    {
        if a[i] != b[i] {
            assert(s@.take(b.len() as int)[i as int] != prefix@[i as int]);
            return None;
        }
        i += 1;
    }
    assert(s@.take(b.len() as int) =~= prefix@);
    let rest = part(&a, b.len(), a.len());
    assert(rest@ =~= s@.skip(b.len() as int));
    Some(rest)
}

/// A character many times.
pub open spec fn repeated(c: char, n: int) -> Seq<char> {
    Seq::new(
        if n < 0 {
            0
        } else {
            n as nat
        },
        |i: int| c,
    )
}

/// A character many times.
pub fn repeat(c: char, n: usize) -> (r: String)
    ensures
        r@ == repeated(c, n as int),
{
    let mut out = String::new();
    let mut i: usize = 0;
    assert(out@ =~= repeated(c, 0));
    while i < n
        invariant
            i <= n,
            out@ == repeated(c, i as int),
        decreases n - i,
    {
        out.push(c);
        i += 1;
        assert(out@ =~= repeated(c, i as int));
    }
    out
}

/// A text filled up with spaces behind it to a width.
pub open spec fn left_aligned(s: Seq<char>, width: nat) -> Seq<char> {
    s + repeated(' ', width - s.len())
}

/// A text filled up with spaces before it to a width.
pub open spec fn right_aligned(s: Seq<char>, width: nat) -> Seq<char> {
    repeated(' ', width - s.len()) + s
}

fn missing(s: &str, width: usize) -> (r: usize)
    ensures
        r == if s@.len() < width {
            width - s@.len()
        } else {
            0
        },
{
    let n: usize = chars_of(s).len();
    if n < width {
        width - n
    } else {
        0
    }
}

/// Fills a text up with spaces behind it to a width.
pub fn align_left(s: &str, width: usize) -> (r: String)
    ensures
        r@ == left_aligned(s@, width as nat),
{
    let mut out = String::from_str(s);
    out.append(repeat(' ', missing(s, width)).as_str());
    assert(out@ =~= left_aligned(s@, width as nat));
    out
}

/// Fills a text up with spaces before it to a width.
pub fn align_right(s: &str, width: usize) -> (r: String)
    ensures
        r@ == right_aligned(s@, width as nat),
{
    let mut out = repeat(' ', missing(s, width));
    out.append(s);
    assert(out@ =~= right_aligned(s@, width as nat));
    out
}

/// A number filled up with zeros before it to a width.
pub open spec fn zero_filled(s: Seq<char>, width: nat) -> Seq<char> {
    repeated('0', width - s.len()) + s
}

/// Fills a numeral up with zeros before it to a width.
pub fn fill_zeros(s: &str, width: usize) -> (r: String)
    ensures
        r@ == zero_filled(s@, width as nat),
{
    let mut out = repeat('0', missing(s, width));
    out.append(s);
    assert(out@ =~= zero_filled(s@, width as nat));
    out
}

} // verus!
