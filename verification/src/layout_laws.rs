//! What trimming, prefixes and alignment do to a text.

use crate::layout::{
    after, begins, left_aligned, right_aligned, trimmed, trimmed_end, trimmed_start,
    zero_filled,
};
use crate::unicode::is_space;
use vstd::prelude::*;

verus! {

/// Whether a text consists of white space.
pub open spec fn is_blank(s: Seq<char>) -> bool {
    forall|i: int| 0 <= i < s.len() ==> is_space(#[trigger] s[i])
}

/// Whether a text neither begins nor ends with white space.
pub open spec fn is_trim(s: Seq<char>) -> bool {
    s.len() > 0 ==> !is_space(s[0]) && !is_space(s.last())
}

/// Trimming takes the white space off both ends of a text and leaves what stands between.
pub proof fn law_trimming_leaves_the_middle(a: Seq<char>, s: Seq<char>, b: Seq<char>)
    requires
        is_blank(a),
        is_trim(s),
        is_blank(b),
    ensures
        trimmed(a + s + b) == s,
    decreases a.len(), b.len(),
{
    lemma_start(a, s + b);
    assert(a + s + b =~= a + (s + b));
    if s.len() > 0 {
        assert((s + b)[0] == s[0]);
        assert(trimmed_start(s + b) == s + b);
        lemma_end(s, b);
        assert(trimmed_end(s) == s);
    } else {
        assert(s + b =~= b);
        lemma_all_blank(b);
        assert(s =~= Seq::empty());
    }
}

proof fn lemma_start(a: Seq<char>, t: Seq<char>)
    requires
        is_blank(a),
    ensures
        trimmed_start(a + t) == trimmed_start(t),
    decreases a.len(),
{
    if a.len() == 0 {
        assert(a + t =~= t);
    } else {
        let rest = a.skip(1);
        assert(is_space(a[0]));
        assert forall|i: int| 0 <= i < rest.len() implies is_space(#[trigger] rest[i]) by {
            assert(is_space(a[i + 1]));
        }
        lemma_start(rest, t);
        assert((a + t).skip(1) =~= rest + t);
        assert((a + t)[0] == a[0]);
    }
}

proof fn lemma_end(t: Seq<char>, b: Seq<char>)
    requires
        is_blank(b),
    ensures
        trimmed_end(t + b) == trimmed_end(t),
    decreases b.len(),
{
    if b.len() == 0 {
        assert(t + b =~= t);
    } else {
        let rest = b.drop_last();
        assert(is_space(b[b.len() - 1]));
        assert forall|i: int| 0 <= i < rest.len() implies is_space(#[trigger] rest[i]) by {
            assert(is_space(b[i]));
        }
        lemma_end(t, rest);
        assert((t + b).drop_last() =~= t + rest);
        assert((t + b).last() == b.last());
    }
}

proof fn lemma_all_blank(b: Seq<char>)
    requires
        is_blank(b),
    ensures
        trimmed(b) == Seq::<char>::empty(),
{
    lemma_start(b, Seq::empty());
    assert(b + Seq::<char>::empty() =~= b);
}

/// A text that begins with a prefix is the prefix and what follows it.
pub proof fn law_prefix_and_rest(s: Seq<char>, prefix: Seq<char>, rest: Seq<char>)
    ensures
        after(prefix + rest, prefix) == Some(rest),
        after(s, prefix) == Some(rest) <==> s == prefix + rest,
        begins(s, prefix) <==> after(s, prefix) is Some,
{
    let t = prefix + rest;
    assert(t.take(prefix.len() as int) =~= prefix);
    assert(t.skip(prefix.len() as int) =~= rest);
    if begins(s, prefix) {
        assert(s =~= s.take(prefix.len() as int) + s.skip(prefix.len() as int));
    }
}

/// An aligned text has its width, or its own length where that is more; the text stands at
/// its side and what fills it up at the other.
pub proof fn law_alignment_fills_up(s: Seq<char>, width: nat)
    ensures
        left_aligned(s, width).len() == (if s.len() < width { width } else { s.len() }),
        left_aligned(s, width).take(s.len() as int) == s,
        forall|i: int|
            s.len() <= i < left_aligned(s, width).len() ==> #[trigger] left_aligned(s, width)[i]
                == ' ',
        right_aligned(s, width).len() == (if s.len() < width { width } else { s.len() }),
        right_aligned(s, width).skip(right_aligned(s, width).len() - s.len()) == s,
        forall|i: int|
            0 <= i < right_aligned(s, width).len() - s.len() ==> #[trigger] right_aligned(
                s,
                width,
            )[i] == ' ',
        zero_filled(s, width).len() == (if s.len() < width { width } else { s.len() }),
        zero_filled(s, width).skip(zero_filled(s, width).len() - s.len()) == s,
        forall|i: int|
            0 <= i < zero_filled(s, width).len() - s.len() ==> #[trigger] zero_filled(s, width)[i]
                == '0',
{
    assert(left_aligned(s, width).take(s.len() as int) =~= s);
    let r = right_aligned(s, width);
    assert(r.skip(r.len() - s.len()) =~= s);
    let z = zero_filled(s, width);
    assert(z.skip(z.len() - s.len()) =~= s);
}

/// A trimmed text neither begins nor ends with white space, and trimming it again changes
/// nothing.
pub proof fn law_trimmed_is_trim(s: Seq<char>)
    ensures
        is_trim(trimmed(s)),
        trimmed(trimmed(s)) == trimmed(s),
{
    lemma_start_is_trim(s);
    lemma_end_is_trim(trimmed_start(s));
    let t = trimmed(s);
    let e = Seq::<char>::empty();
    law_trimming_leaves_the_middle(e, t, e);
    assert(e + t + e =~= t);
}

proof fn lemma_start_is_trim(s: Seq<char>)
    ensures
        trimmed_start(s).len() > 0 ==> !is_space(trimmed_start(s)[0]),
    decreases s.len(),
{
    if s.len() > 0 && is_space(s[0]) {
        lemma_start_is_trim(s.skip(1));
    }
}

proof fn lemma_end_is_trim(s: Seq<char>)
    ensures
        trimmed_end(s).len() > 0 ==> !is_space(trimmed_end(s).last()),
        trimmed_end(s).len() > 0 ==> s.len() > 0 && trimmed_end(s)[0] == s[0],
    decreases s.len(),
{
    if s.len() > 0 && is_space(s.last()) {
        lemma_end_is_trim(s.drop_last());
    }
}

} // verus!
