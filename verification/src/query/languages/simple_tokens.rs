//! The words of a query in the simple language.
//!
//! Words are parted by white space. A quoted string is one word, with its quotes
//! and with whatever stands directly before the opening quote.

use crate::text::chars_of;
use crate::unicode::{to_upper, upper};
use vstd::prelude::*;

verus! {

/// The state of a scan: the words so far, the word in progress, and whether the
/// scan is within quotes.
pub struct Scan {
    pub words: Seq<Seq<char>>,
    pub current: Seq<char>,
    pub quoted: bool,
}

impl Scan {
    /// The state in which the word in progress has ended.
    pub open spec fn end_word(self) -> Scan {
        Scan { words: self.words.push(self.current), current: Seq::empty(), quoted: self.quoted }
    }

    /// The state after one more character.
    pub open spec fn step(self, c: char) -> Scan {
        if c == '"' {
            let grown = Scan { current: self.current.push(c), ..self };
            if self.quoted {
                Scan { quoted: false, ..grown.end_word() }
            } else {
                Scan { quoted: true, ..grown }
            }
        } else if !self.quoted && (c == ' ' || c == '\t' || c == '\n' || c == '\r') {
            if self.current.len() > 0 {
                self.end_word()
            } else {
                self
            }
        } else {
            Scan { current: self.current.push(c), ..self }
        }
    }
}

/// The state after all characters.
pub open spec fn scan(s: Seq<char>) -> Scan
    decreases s.len(),
{
    if s.len() == 0 {
        Scan { words: Seq::empty(), current: Seq::empty(), quoted: false }
    } else {
        scan(s.drop_last()).step(s.last())
    }
}

/// The words of a query.
pub open spec fn words_of(s: Seq<char>) -> Seq<Seq<char>> {
    let end = scan(s);
    if end.current.len() > 0 {
        end.words.push(end.current)
    } else {
        end.words
    }
}

/// Whether the end of a text lies within quotes.
pub open spec fn in_quotes(s: Seq<char>) -> bool
    decreases s.len(),
{
    if s.len() == 0 {
        false
    } else {
        in_quotes(s.drop_last()) != (s.last() == '"')
    }
}

/// Whether a character is white space between words.
pub open spec fn is_gap(c: char) -> bool {
    c == ' ' || c == '\t' || c == '\n' || c == '\r'
}

/// A text without the white space that stands outside quotes.
pub open spec fn without_gaps(s: Seq<char>) -> Seq<char>
    decreases s.len(),
{
    if s.len() == 0 {
        Seq::empty()
    } else if is_gap(s.last()) && !in_quotes(s.drop_last()) {
        without_gaps(s.drop_last())
    } else {
        without_gaps(s.drop_last()).push(s.last())
    }
}

/// Words put together.
pub open spec fn joined(words: Seq<Seq<char>>) -> Seq<char>
    decreases words.len(),
{
    if words.len() == 0 {
        Seq::empty()
    } else {
        joined(words.drop_last()) + words.last()
    }
}

/// Whether a word is whole: it has a character, white space only within quotes, and
/// ends where quotes are closed.
pub open spec fn whole_word(w: Seq<char>) -> bool {
    &&& w.len() > 0
    &&& forall|i: int| 0 <= i < w.len() && is_gap(#[trigger] w[i]) ==> in_quotes(w.take(i))
    &&& forall|i: int|
        0 <= i < w.len() - 1 && #[trigger] w[i] == '"' ==> !in_quotes(w.take(i))
}

proof fn lemma_scan(s: Seq<char>)
    ensures
        joined(scan(s).words) + scan(s).current == without_gaps(s),
        scan(s).quoted == in_quotes(s),
        scan(s).quoted == in_quotes(scan(s).current),
        forall|i: int| 0 <= i < scan(s).words.len() ==> whole_word(#[trigger] scan(s).words[i]),
        scan(s).current.len() > 0 ==> whole_word(scan(s).current),
        forall|i: int|
            0 <= i < scan(s).current.len() && #[trigger] scan(s).current[i] == '"' ==> !in_quotes(
                scan(s).current.take(i),
            ),
    decreases s.len(),
{
    let end = scan(s);
    if s.len() == 0 {
        assert(joined(end.words) + end.current =~= Seq::empty());
    } else {
        let t = s.drop_last();
        let c = s.last();
        let before = scan(t);
        lemma_scan(t);
        let grown = before.current.push(c);
        assert(grown.drop_last() =~= before.current);
        assert(grown.take(before.current.len() as int) =~= before.current);
        assert forall|i: int| 0 <= i < before.current.len() implies #[trigger] grown.take(i)
            == before.current.take(i) by {
            assert(grown.take(i) =~= before.current.take(i));
        }
        assert(joined(before.words) + grown =~= (joined(before.words) + before.current).push(c));
        assert(before.words.push(grown).drop_last() =~= before.words);
        assert(before.words.push(before.current).drop_last() =~= before.words);
        assert(joined(before.words.push(grown)) + Seq::<char>::empty() =~= joined(before.words)
            + grown);
        assert(joined(before.words.push(before.current)) + Seq::<char>::empty() =~= joined(
            before.words,
        ) + before.current);
    }
}

/// The words of a query, put together, are the query without the white space outside
/// quotes. No word is empty; white space stands in a word only within quotes, and where
/// quotes are closed the word ends.
pub proof fn law_words_join_to_query(s: Seq<char>)
    ensures
        joined(words_of(s)) == without_gaps(s),
        forall|i: int| 0 <= i < words_of(s).len() ==> whole_word(#[trigger] words_of(s)[i]),
{
    let end = scan(s);
    lemma_scan(s);
    if end.current.len() > 0 {
        assert(end.words.push(end.current).drop_last() =~= end.words);
    } else {
        assert(joined(end.words) + end.current =~= joined(end.words));
    }
}

/// Whether a new word begins after a text: nothing stands before, or white space
/// outside quotes, or quotes that have just been closed.
pub open spec fn at_word_start(s: Seq<char>) -> bool {
    s.len() == 0 || (is_gap(s.last()) && !in_quotes(s.drop_last())) || (s.last() == '"'
        && in_quotes(s.drop_last()))
}

proof fn lemma_word_start(s: Seq<char>)
    ensures
        at_word_start(s) == (scan(s).current.len() == 0),
{
    if s.len() > 0 {
        lemma_scan(s.drop_last());
    }
}

/// What one more character does: white space outside quotes adds nothing to the words;
/// any other character begins a word where one begins, and belongs to the last word
/// otherwise. So a word ends at each white space outside quotes and where quotes are
/// closed, and nowhere else.
pub proof fn law_words_grow(s: Seq<char>, c: char)
    ensures
        words_of(s.push(c)) == if is_gap(c) && !in_quotes(s) {
            words_of(s)
        } else if at_word_start(s) {
            words_of(s).push(seq![c])
        } else {
            words_of(s).drop_last().push(words_of(s).last().push(c))
        },
        !at_word_start(s) ==> words_of(s).len() > 0,
{
    let before = scan(s);
    lemma_scan(s);
    lemma_word_start(s);
    assert(s.push(c).drop_last() =~= s);
    assert(Seq::<char>::empty().push(c) =~= seq![c]);
    if before.current.len() == 0 {
        assert(before.current =~= Seq::empty());
    }
    assert(before.words.push(before.current).drop_last() =~= before.words);
}

/// A query that is continued after the end of a word has the words of its first part
/// and then those of the rest.
pub proof fn law_words_of_parts(a: Seq<char>, b: Seq<char>)
    requires
        at_word_start(a),
        !in_quotes(a),
    ensures
        words_of(a + b) == words_of(a) + words_of(b),
{
    lemma_scan(a);
    lemma_word_start(a);
    lemma_scan_parts(a, b);
    let end = scan(b);
    assert(scan(a).words + end.words.push(end.current) =~= (scan(a).words + end.words).push(
        end.current,
    ));
}

proof fn lemma_scan_parts(a: Seq<char>, b: Seq<char>)
    requires
        scan(a).current.len() == 0,
        !scan(a).quoted,
    ensures
        scan(a + b) == (Scan { words: scan(a).words + scan(b).words, ..scan(b) }),
    decreases b.len(),
{
    if b.len() == 0 {
        assert(a + b =~= a);
        assert(scan(a).current =~= Seq::empty());
        assert(scan(a).words + scan(b).words =~= scan(a).words);
    } else {
        let t = b.drop_last();
        lemma_scan_parts(a, t);
        assert((a + b).drop_last() =~= a + t);
        assert((a + b).last() == b.last());
        let e = scan(t);
        assert(scan(a).words + e.words.push(e.current) =~= (scan(a).words + e.words).push(
            e.current,
        ));
        let grown = e.current.push(b.last());
        assert(scan(a).words + e.words.push(grown) =~= (scan(a).words + e.words).push(grown));
    }
}

/// The texts of strings.
pub open spec fn texts(s: Seq<String>) -> Seq<Seq<char>> {
    s.map_values(|t: String| t@)
}

/// Parts a query into words.
pub fn tokenize(input: &str) -> (r: Vec<String>)
    ensures
        texts(r@) == words_of(input@),
{
    let chars = chars_of(input);
    let mut tokens: Vec<String> = Vec::new();
    let mut current = String::new();
    let mut in_string = false;
    let mut i: usize = 0;
    let mut len: usize = 0;
    proof {
        assert(texts(tokens@) =~= Seq::empty());
        assert(chars@.take(0) =~= Seq::empty());
    }
    while i < chars.len()
        invariant
            i <= chars.len(),
            len <= i,
            scan(chars@.take(i as int)) == (Scan {
                words: texts(tokens@),
                current: current@,
                quoted: in_string,
            }),
            len == current@.len(),
        decreases chars.len() - i,
    {
        let c = chars[i];
        let ghost before = texts(tokens@);
        proof {
            assert(chars@.take(i + 1).drop_last() =~= chars@.take(i as int));
            assert(chars@.take(i + 1).last() == c);
        }
        if c == '"' {
            current.push(c);
            len = len + 1;
            if in_string {
                let ghost word = current@;
                tokens.push(current);
                assert(texts(tokens@) =~= before.push(word));
                current = String::new();
                len = 0;
            }
            in_string = !in_string;
        } else if !in_string && (c == ' ' || c == '\t' || c == '\n' || c == '\r') {
            if len > 0 {
                let ghost word = current@;
                tokens.push(current);
                assert(texts(tokens@) =~= before.push(word));
                current = String::new();
                len = 0;
            }
        } else {
            current.push(c);
            len = len + 1;
        }
        i += 1;
    }
    proof {
        assert(chars@.take(i as int) =~= chars@);
    }
    if len > 0 {
        let ghost before = texts(tokens@);
        let ghost word = current@;
        tokens.push(current);
        assert(texts(tokens@) =~= before.push(word));
    }
    tokens
}

/// A word and its upper case.
#[derive(Debug)]
pub struct Word {
    /// The word as written.
    pub text: String,
    /// The word in upper case.
    pub upper: String,
}

/// What a word holds.
pub struct WordView {
    pub text: Seq<char>,
    pub upper: Seq<char>,
}

impl View for Word {
    type V = WordView;

    open spec fn view(&self) -> WordView {
        WordView { text: self.text@, upper: self.upper@ }
    }
}

/// What words hold.
pub open spec fn word_views(s: Seq<Word>) -> Seq<WordView> {
    s.map_values(|w: Word| w@)
}

/// The words of a query with their upper case.
pub open spec fn query_words(s: Seq<char>) -> Seq<WordView> {
    words_of(s).map_values(|t: Seq<char>| WordView { text: t, upper: upper(t) })
}

/// Parts a query into words with their upper case.
pub fn read_words(input: &str) -> (r: Vec<Word>)
    ensures
        word_views(r@) == query_words(input@),
{
    let tokens = tokenize(input);
    let mut out: Vec<Word> = Vec::new();
    let mut i: usize = 0;
    while i < tokens.len()
        invariant
            i <= tokens.len(),
            texts(tokens@) == words_of(input@),
            out.len() == i,
            forall|j: int|
                0 <= j < i ==> (#[trigger] out[j])@ == (WordView {
                    text: texts(tokens@)[j],
                    upper: upper(texts(tokens@)[j]),
                }),
        decreases tokens.len() - i,
    {
        let upper = to_upper(tokens[i].as_str());
        let text = tokens[i].clone();
        assert(texts(tokens@)[i as int] == tokens[i as int]@);
        out.push(Word { text, upper });
        i += 1;
    }
    assert(texts(tokens@).len() == tokens.len());
    assert(word_views(out@) =~= query_words(input@));
    out
}

} // verus!
