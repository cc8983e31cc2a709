//! What both languages can say, they understand alike.

use crate::model::node_id::NodeId;
use crate::number_text::{lemma_numeral, rest_of};
use crate::query::ast::{
    CommandView, ComparisonOp, EdgeFilterView, LabelConditionView, NodeFilterView, TraversalKind,
};
use crate::query::languages::cypher_lite;
use crate::query::languages::cypher_lite::CypherLiteLanguage;
use crate::query::languages::cypher_tokens::{
    in_word, is_keyword, is_node_ref, pair_token, single_token, token_at, tokens_from, tokens_of,
    word_end, word_token, TokenView,
};
use crate::query::languages::simple;
use crate::query::languages::simple::SimpleQueryLanguage;
use crate::query::languages::simple_tokens::{query_words, scan, words_of, Scan};
use crate::query::port::QueryLanguagePort;
use crate::text::decimal;
use crate::unicode::{ascii_upper, is_ascii_char, is_ascii_text, is_letter, is_space, upper};
use vstd::prelude::*;

verus! {

// ------------------------------------------------------------ the simple language

/// Whether a character is an ordinary part of a word.
pub open spec fn is_plain_char(c: char) -> bool {
    c != '"' && c != ' ' && c != '\t' && c != '\n' && c != '\r'
}

/// Whether a text consists of ordinary parts of a word.
pub open spec fn is_plain_text(w: Seq<char>) -> bool {
    forall|i: int| 0 <= i < w.len() ==> is_plain_char(#[trigger] w[i])
}

/// Whether a text ends where a word may start, after the given words.
pub open spec fn ready(s: Seq<char>, words: Seq<Seq<char>>) -> bool {
    scan(s) == (Scan { words, current: Seq::empty(), quoted: false })
}

pub proof fn lemma_scan_plain(s: Seq<char>, w: Seq<char>)
    requires
        !scan(s).quoted,
        is_plain_text(w),
    ensures
        scan(s + w) == (Scan { current: scan(s).current + w, ..scan(s) }),
    decreases w.len(),
{
    if w.len() == 0 {
        assert(s + w =~= s);
        assert(scan(s).current + w =~= scan(s).current);
    } else {
        let v = w.drop_last();
        assert forall|i: int| 0 <= i < v.len() implies is_plain_char(#[trigger] v[i]) by {
            assert(v[i] == w[i]);
        }
        lemma_scan_plain(s, v);
        assert((s + w).drop_last() =~= s + v);
        assert((s + w).last() == w.last());
        assert(is_plain_char(w[w.len() - 1]));
        assert((scan(s).current + v).push(w.last()) =~= scan(s).current + w);
    }
}

/// A word and a space are read.
pub proof fn lemma_word(s: Seq<char>, words: Seq<Seq<char>>, w: Seq<char>)
    requires
        ready(s, words),
        w.len() > 0,
        is_plain_text(w),
    ensures
        ready(s + w + seq![' '], words.push(w)),
        words_of(s + w) == words.push(w),
{
    lemma_scan_plain(s, w);
    assert(Seq::<char>::empty() + w =~= w);
    let t = s + w + seq![' '];
    assert(t.drop_last() =~= s + w);
    assert(t.last() == ' ');
}

pub proof fn lemma_scan_quoted(s: Seq<char>, w: Seq<char>)
    requires
        scan(s).quoted,
        forall|i: int| 0 <= i < w.len() ==> #[trigger] w[i] != '"',
    ensures
        scan(s + w) == (Scan { current: scan(s).current + w, ..scan(s) }),
    decreases w.len(),
{
    if w.len() == 0 {
        assert(s + w =~= s);
        assert(scan(s).current + w =~= scan(s).current);
    } else {
        let v = w.drop_last();
        assert forall|i: int| 0 <= i < v.len() implies #[trigger] v[i] != '"' by {
            assert(v[i] == w[i]);
        }
        lemma_scan_quoted(s, v);
        assert((s + w).drop_last() =~= s + v);
        assert((s + w).last() == w.last());
        assert(w[w.len() - 1] != '"');
        assert((scan(s).current + v).push(w.last()) =~= scan(s).current + w);
    }
}

/// A quoted string at the end is one word.
proof fn lemma_quoted(s: Seq<char>, words: Seq<Seq<char>>, w: Seq<char>)
    requires
        ready(s, words),
        forall|i: int| 0 <= i < w.len() ==> #[trigger] w[i] != '"',
    ensures
        words_of(s + seq!['"'] + w + seq!['"']) == words.push(seq!['"'] + w + seq!['"']),
{
    let q = seq!['"'];
    let a = s + q;
    assert(a.drop_last() =~= s);
    assert(a.last() == '"');
    assert(Seq::<char>::empty().push('"') =~= q);
    assert(scan(a) == (Scan { words, current: q, quoted: true }));
    lemma_scan_quoted(a, w);
    let b = a + w + q;
    assert(b.drop_last() =~= a + w);
    assert(b.last() == '"');
    assert((q + w).push('"') =~= q + w + q);
}

/// A word of capital letters is its own upper case.
pub proof fn lemma_capitals(w: Seq<char>)
    requires
        forall|i: int| 0 <= i < w.len() ==> 'A' <= #[trigger] w[i] && w[i] <= 'Z',
    ensures
        upper(w) == w,
{
    assert(is_ascii_text(w)) by {
        assert forall|i: int| 0 <= i < w.len() implies is_ascii_char(#[trigger] w[i]) by {}
    }
    assert(w.map_values(|c: char| ascii_upper(c)) =~= w);
}

// ------------------------------------------------------------------- both of them

/// Whether a text can stand as a label without quotes.
pub open spec fn is_name(l: Seq<char>) -> bool {
    &&& l.len() > 0
    &&& is_letter(l[0]) || l[0] == '_'
    &&& !is_space(l[0])
    &&& forall|i: int| 0 <= i < l.len() ==> in_word(#[trigger] l[i])
    &&& !is_node_ref(l)
    &&& upper(l) != "TRUE"@
    &&& upper(l) != "FALSE"@
    &&& !is_keyword(upper(l))
}

pub proof fn lemma_word_ends(s: Seq<char>, i: int, j: int)
    requires
        0 <= i <= j <= s.len(),
        forall|k: int| i <= k < j ==> in_word(#[trigger] s[k]),
        j < s.len() ==> !in_word(s[j]),
    ensures
        word_end(s, i) == j,
    decreases j - i,
{
    if i < j {
        lemma_word_ends(s, i + 1, j);
    }
}

/// A word is read as one token.
pub proof fn lemma_word_token(s: Seq<char>, i: int, j: int, acc: Seq<TokenView>)
    requires
        0 <= i < j <= s.len(),
        is_letter(s[i]) || s[i] == '_',
        !is_space(s[i]),
        forall|k: int| i <= k < j ==> in_word(#[trigger] s[k]),
        j < s.len() ==> !in_word(s[j]),
        word_token(s.subrange(i, j), upper(s.subrange(i, j))) is Ok,
    ensures
        tokens_from(s, i, acc) == tokens_from(
            s,
            j,
            acc.push(word_token(s.subrange(i, j), upper(s.subrange(i, j)))->Ok_0),
        ),
{
    lemma_word_ends(s, i, j);
    crate::query::languages::cypher_tokens::lemma_token_advances(s, i);
}

/// A character that is a token by itself is read as that.
pub proof fn lemma_single(s: Seq<char>, i: int, acc: Seq<TokenView>)
    requires
        0 <= i < s.len(),
        single_token(s[i]) is Some,
        i + 1 < s.len() ==> pair_token(s[i], s[i + 1]) is None,
    ensures
        tokens_from(s, i, acc) == tokens_from(s, i + 1, acc.push(single_token(s[i])->0)),
{
    crate::query::languages::cypher_tokens::lemma_token_advances(s, i);
}

/// The command that asks for the nodes with a label.
pub open spec fn nodes_with_label(l: Seq<char>) -> CommandView {
    CommandView::MatchNodes(NodeFilterView { label: Some(l), ..simple::any_node() })
}

proof fn lemma_simple_label(l: Seq<char>)
    requires
        forall|i: int| 0 <= i < l.len() ==> #[trigger] l[i] != '"',
    ensures
        simple::command_of(query_words("MATCH NODE WHERE label = \""@ + l + "\""@))
            == Ok::<CommandView, Seq<char>>(nodes_with_label(l)),
{
    reveal_strlit("MATCH NODE WHERE label = \"");
    reveal_strlit("\"");
    reveal_strlit("MATCH");
    reveal_strlit("NODE");
    reveal_strlit("WHERE");
    reveal_strlit("label");
    reveal_strlit("=");
    let q = "MATCH NODE WHERE label = \""@ + l + "\""@;
    let e = Seq::<char>::empty();
    let none = Seq::<Seq<char>>::empty();
    let sp = seq![' '];
    assert(ready(e, none));
    let s1 = e + "MATCH"@ + sp;
    let w1 = none.push("MATCH"@);
    lemma_word(e, none, "MATCH"@);
    let s2 = s1 + "NODE"@ + sp;
    let w2 = w1.push("NODE"@);
    lemma_word(s1, w1, "NODE"@);
    let s3 = s2 + "WHERE"@ + sp;
    let w3 = w2.push("WHERE"@);
    lemma_word(s2, w2, "WHERE"@);
    let s4 = s3 + "label"@ + sp;
    let w4 = w3.push("label"@);
    lemma_word(s3, w3, "label"@);
    let s5 = s4 + "="@ + sp;
    let w5 = w4.push("="@);
    lemma_word(s4, w4, "="@);
    lemma_quoted(s5, w5, l);
    assert(q =~= s5 + seq!['"'] + l + seq!['"']);
    let quoted = seq!['"'] + l + seq!['"'];
    let words = w5.push(quoted);
    assert(words_of(q) == words);
    let ws = query_words(q);
    assert(ws.len() == 6);
    assert(ws[0].text == "MATCH"@ && ws[1].text == "NODE"@ && ws[2].text == "WHERE"@);
    assert(ws[3].text == "label"@ && ws[4].text == "="@ && ws[5].text == quoted);
    lemma_capitals("MATCH"@);
    lemma_capitals("NODE"@);
    assert(ws[0].upper == "MATCH"@);
    assert(ws[1].upper == "NODE"@);
    assert(simple::unquoted(quoted) =~= l);
    assert(simple::read_label(ws, 4) == Ok::<(LabelConditionView, int), Seq<char>>(
        (LabelConditionView { op: ComparisonOp::Eq, value: l }, 6),
    ));
}

/// The tokens of a pattern for nodes with a label.
spec fn label_tokens(l: Seq<char>) -> Seq<TokenView> {
    seq![
        TokenView::Keyword("MATCH"@),
        TokenView::LParen,
        TokenView::Ident(seq!['n']),
        TokenView::Colon,
        TokenView::Ident(l),
        TokenView::RParen,
        TokenView::Keyword("RETURN"@),
        TokenView::Ident(seq!['n']),
    ]
}

proof fn lemma_label_tokens_start(s: Seq<char>, l: Seq<char>)
    requires
        is_name(l),
        s == "MATCH (n:"@ + l + ") RETURN n"@,
    ensures
        tokens_of(s) == tokens_from(s, 9 + l.len() as int, label_tokens(l).take(5)),
{
    reveal_strlit("MATCH (n:");
    reveal_strlit(") RETURN n");
    reveal_strlit("MATCH");
    let n = l.len() as int;
    let none = Seq::<TokenView>::empty();
    assert(s.subrange(0, 5) =~= "MATCH"@);
    lemma_capitals("MATCH"@);
    lemma_keywords();
    assert(forall|k: int| 0 <= k < 5 ==> in_word(#[trigger] s[k]));
    lemma_word_token(s, 0, 5, none);
    let t1 = none.push(TokenView::Keyword("MATCH"@));
    assert(is_space(s[5]));
    lemma_single(s, 6, t1);
    let t2 = t1.push(TokenView::LParen);
    let name = seq!['n'];
    assert(s.subrange(7, 8) =~= name);
    lemma_small_name();
    lemma_word_token(s, 7, 8, t2);
    let t3 = t2.push(TokenView::Ident(name));
    lemma_single(s, 8, t3);
    let t4 = t3.push(TokenView::Colon);
    assert(s.subrange(9, 9 + n) =~= l);
    assert forall|k: int| 9 <= k < 9 + n implies in_word(#[trigger] s[k]) by {
        assert(s[k] == l[k - 9]);
    }
    assert(s[9] == l[0]);
    assert(s[9 + n] == ')');
    lemma_word_token(s, 9, 9 + n, t4);
    assert(t4.push(TokenView::Ident(l)) =~= label_tokens(l).take(5));
}

proof fn lemma_label_tokens_end(s: Seq<char>, l: Seq<char>)
    requires
        s == "MATCH (n:"@ + l + ") RETURN n"@,
    ensures
        tokens_from(s, 9 + l.len() as int, label_tokens(l).take(5)) == Ok::<Seq<TokenView>, Seq<char>>(
            label_tokens(l),
        ),
{
    reveal_strlit("MATCH (n:");
    reveal_strlit(") RETURN n");
    reveal_strlit("RETURN");
    let n = l.len() as int;
    let t5 = label_tokens(l).take(5);
    assert(s[9 + n] == ')');
    assert(s[10 + n] == ' ');
    lemma_single(s, 9 + n, t5);
    let t6 = t5.push(TokenView::RParen);
    assert(is_space(s[10 + n]));
    assert(s.subrange(11 + n, 17 + n) =~= "RETURN"@);
    lemma_capitals("RETURN"@);
    lemma_keywords();
    assert forall|k: int| 11 + n <= k < 17 + n implies in_word(#[trigger] s[k]) by {
        assert(s[k] == "RETURN"@[k - 11 - n]);
    }
    assert(s[11 + n] == 'R');
    assert(s[17 + n] == ' ');
    lemma_word_token(s, 11 + n, 17 + n, t6);
    let t7 = t6.push(TokenView::Keyword("RETURN"@));
    let name = seq!['n'];
    assert(s[18 + n] == 'n');
    assert(s.len() == 19 + n);
    assert(s.subrange(18 + n, 19 + n) =~= name);
    lemma_small_name();
    lemma_word_token(s, 18 + n, 19 + n, t7);
    assert(t7.push(TokenView::Ident(name)) =~= label_tokens(l));
}

proof fn lemma_label_command(l: Seq<char>)
    ensures
        cypher_lite::command_of(label_tokens(l)) == Ok::<CommandView, Seq<char>>(
            nodes_with_label(l),
        ),
{
    reveal_strlit("WHERE");
    reveal_strlit("RETURN");
    let ts = label_tokens(l);
    reveal_with_fuel(cypher_lite::is_relationship, 8);
    assert(!cypher_lite::is_relationship(ts, 1, 0, false));
    assert(cypher_lite::read_label(ts, 3, "expected label after ':'"@) == Ok::<
        (Option<Seq<char>>, int),
        Seq<char>,
    >((Some(l), 5)));
    assert(cypher_lite::read_node_pattern(ts, 1) == Ok::<(Option<Seq<char>>, int), Seq<char>>(
        (Some(l), 6),
    ));
}

/// Keywords are read as such.
pub proof fn lemma_keywords()
    ensures
        word_token("MATCH"@, "MATCH"@) == Ok::<TokenView, Seq<char>>(
            TokenView::Keyword("MATCH"@),
        ),
        word_token("RETURN"@, "RETURN"@) == Ok::<TokenView, Seq<char>>(
            TokenView::Keyword("RETURN"@),
        ),
{
    reveal_strlit("MATCH");
    reveal_strlit("RETURN");
    reveal_strlit("TRUE");
    reveal_strlit("FALSE");
}

/// The name `n` is no keyword.
pub proof fn lemma_small_name()
    ensures
        word_token(seq!['n'], upper(seq!['n'])) == Ok::<TokenView, Seq<char>>(
            TokenView::Ident(seq!['n']),
        ),
        word_token(seq!['r'], upper(seq!['r'])) == Ok::<TokenView, Seq<char>>(
            TokenView::Ident(seq!['r']),
        ),
{
    reveal_strlit("MATCH");
    reveal_strlit("WHERE");
    reveal_strlit("RETURN");
    reveal_strlit("AND");
    reveal_strlit("TRAVERSE");
    reveal_strlit("PATH");
    reveal_strlit("FROM");
    reveal_strlit("TO");
    reveal_strlit("COUNT");
    reveal_strlit("NODES");
    reveal_strlit("EDGES");
    reveal_strlit("BFS");
    reveal_strlit("DFS");
    reveal_strlit("TRUE");
    reveal_strlit("FALSE");
    let n = seq!['n'];
    let r = seq!['r'];
    assert(is_ascii_text(n));
    assert(is_ascii_text(r));
    assert(upper(n).len() == 1);
    assert(upper(r).len() == 1);
}

/// Both languages ask for the nodes with a label alike.
pub proof fn law_languages_agree_on_labels(l: Seq<char>)
    requires
        is_name(l),
    ensures
        SimpleQueryLanguage.command("MATCH NODE WHERE label = \""@ + l + "\""@)
            == CypherLiteLanguage.command("MATCH (n:"@ + l + ") RETURN n"@),
        SimpleQueryLanguage.command("MATCH NODE WHERE label = \""@ + l + "\""@) matches Ok(c) && c
            == nodes_with_label(l),
{
    assert forall|i: int| 0 <= i < l.len() implies #[trigger] l[i] != '"' by {
        assert(in_word(l[i]));
    }
    lemma_simple_label(l);
    let s = "MATCH (n:"@ + l + ") RETURN n"@;
    lemma_label_tokens_start(s, l);
    lemma_label_tokens_end(s, l);
    lemma_label_command(l);
}

// ---------------------------------------------------------------------- edges

/// The command that asks for the edges with a label.
pub open spec fn edges_with_label(l: Seq<char>) -> CommandView {
    CommandView::MatchEdges(
        EdgeFilterView { label: Some(l), ..simple::any_edge() },
    )
}

proof fn lemma_simple_edge_label(l: Seq<char>)
    requires
        forall|i: int| 0 <= i < l.len() ==> #[trigger] l[i] != '"',
    ensures
        simple::command_of(query_words("MATCH EDGE WHERE label = \""@ + l + "\""@))
            == Ok::<CommandView, Seq<char>>(edges_with_label(l)),
{
    reveal_strlit("MATCH EDGE WHERE label = \"");
    reveal_strlit("\"");
    reveal_strlit("MATCH");
    reveal_strlit("EDGE");
    reveal_strlit("NODE");
    reveal_strlit("WHERE");
    reveal_strlit("label");
    reveal_strlit("=");
    let q = "MATCH EDGE WHERE label = \""@ + l + "\""@;
    let e = Seq::<char>::empty();
    let none = Seq::<Seq<char>>::empty();
    let sp = seq![' '];
    assert(ready(e, none));
    let s1 = e + "MATCH"@ + sp;
    let w1 = none.push("MATCH"@);
    lemma_word(e, none, "MATCH"@);
    let s2 = s1 + "EDGE"@ + sp;
    let w2 = w1.push("EDGE"@);
    lemma_word(s1, w1, "EDGE"@);
    let s3 = s2 + "WHERE"@ + sp;
    let w3 = w2.push("WHERE"@);
    lemma_word(s2, w2, "WHERE"@);
    let s4 = s3 + "label"@ + sp;
    let w4 = w3.push("label"@);
    lemma_word(s3, w3, "label"@);
    let s5 = s4 + "="@ + sp;
    let w5 = w4.push("="@);
    lemma_word(s4, w4, "="@);
    lemma_quoted(s5, w5, l);
    assert(q =~= s5 + seq!['"'] + l + seq!['"']);
    let quoted = seq!['"'] + l + seq!['"'];
    assert(words_of(q) == w5.push(quoted));
    let ws = query_words(q);
    assert(ws.len() == 6);
    assert(ws[0].text == "MATCH"@ && ws[1].text == "EDGE"@ && ws[2].text == "WHERE"@);
    assert(ws[3].text == "label"@ && ws[4].text == "="@ && ws[5].text == quoted);
    lemma_capitals("MATCH"@);
    lemma_capitals("EDGE"@);
    assert(ws[0].upper == "MATCH"@);
    assert(ws[1].upper == "EDGE"@);
    assert("EDGE"@[0] != "NODE"@[0]);
    assert(simple::unquoted(quoted) =~= l);
    assert(simple::read_label(ws, 4) == Ok::<(LabelConditionView, int), Seq<char>>(
        (LabelConditionView { op: ComparisonOp::Eq, value: l }, 6),
    ));
}

/// The tokens of a pattern for edges with a label.
spec fn relationship_tokens(l: Seq<char>) -> Seq<TokenView> {
    seq![
        TokenView::Keyword("MATCH"@),
        TokenView::LParen,
        TokenView::RParen,
        TokenView::Dash,
        TokenView::LBracket,
        TokenView::Ident(seq!['r']),
        TokenView::Colon,
        TokenView::Ident(l),
        TokenView::RBracket,
        TokenView::Arrow,
        TokenView::LParen,
        TokenView::RParen,
        TokenView::Keyword("RETURN"@),
        TokenView::Ident(seq!['r']),
    ]
}

proof fn lemma_relationship_start(s: Seq<char>, l: Seq<char>)
    requires
        is_name(l),
        s == "MATCH ()-[r:"@ + l + "]->() RETURN r"@,
    ensures
        tokens_of(s) == tokens_from(s, 12 + l.len() as int, relationship_tokens(l).take(8)),
{
    reveal_strlit("MATCH ()-[r:");
    reveal_strlit("]->() RETURN r");
    reveal_strlit("MATCH");
    let n = l.len() as int;
    let none = Seq::<TokenView>::empty();
    assert(s.subrange(0, 5) =~= "MATCH"@);
    lemma_capitals("MATCH"@);
    lemma_keywords();
    assert(forall|k: int| 0 <= k < 5 ==> in_word(#[trigger] s[k]));
    lemma_word_token(s, 0, 5, none);
    let t1 = none.push(TokenView::Keyword("MATCH"@));
    assert(is_space(s[5]));
    lemma_single(s, 6, t1);
    let t2 = t1.push(TokenView::LParen);
    lemma_single(s, 7, t2);
    let t3 = t2.push(TokenView::RParen);
    lemma_single(s, 8, t3);
    let t4 = t3.push(TokenView::Dash);
    lemma_single(s, 9, t4);
    let t5 = t4.push(TokenView::LBracket);
    let name = seq!['r'];
    assert(s.subrange(10, 11) =~= name);
    lemma_small_name();
    lemma_word_token(s, 10, 11, t5);
    let t6 = t5.push(TokenView::Ident(name));
    assert(s[12] == l[0]);
    lemma_single(s, 11, t6);
    let t7 = t6.push(TokenView::Colon);
    assert(s.subrange(12, 12 + n) =~= l);
    assert forall|k: int| 12 <= k < 12 + n implies in_word(#[trigger] s[k]) by {
        assert(s[k] == l[k - 12]);
    }
    assert(s[12 + n] == ']');
    lemma_word_token(s, 12, 12 + n, t7);
    assert(t7.push(TokenView::Ident(l)) =~= relationship_tokens(l).take(8));
}

proof fn lemma_relationship_end(s: Seq<char>, l: Seq<char>)
    requires
        s == "MATCH ()-[r:"@ + l + "]->() RETURN r"@,
    ensures
        tokens_from(s, 12 + l.len() as int, relationship_tokens(l).take(8)) == Ok::<
            Seq<TokenView>,
            Seq<char>,
        >(relationship_tokens(l)),
{
    reveal_strlit("MATCH ()-[r:");
    reveal_strlit("]->() RETURN r");
    reveal_strlit("RETURN");
    let n = l.len() as int;
    let t8 = relationship_tokens(l).take(8);
    assert(s[12 + n] == ']' && s[13 + n] == '-' && s[14 + n] == '>' && s[15 + n] == '(');
    assert(s[16 + n] == ')' && s[17 + n] == ' ');
    lemma_single(s, 12 + n, t8);
    let t9 = t8.push(TokenView::RBracket);
    crate::query::languages::cypher_tokens::lemma_token_advances(s, 13 + n);
    assert(token_at(s, 13 + n) == Ok::<(TokenView, int), Seq<char>>((TokenView::Arrow, 15 + n)));
    let t10 = t9.push(TokenView::Arrow);
    assert(tokens_from(s, 13 + n, t9) == tokens_from(s, 15 + n, t10));
    lemma_single(s, 15 + n, t10);
    let t11 = t10.push(TokenView::LParen);
    lemma_single(s, 16 + n, t11);
    let t12 = t11.push(TokenView::RParen);
    assert(is_space(s[17 + n]));
    assert(s.subrange(18 + n, 24 + n) =~= "RETURN"@);
    lemma_capitals("RETURN"@);
    lemma_keywords();
    assert forall|k: int| 18 + n <= k < 24 + n implies in_word(#[trigger] s[k]) by {
        assert(s[k] == "RETURN"@[k - 18 - n]);
    }
    assert(s[18 + n] == 'R');
    assert(s[24 + n] == ' ');
    lemma_word_token(s, 18 + n, 24 + n, t12);
    let t13 = t12.push(TokenView::Keyword("RETURN"@));
    let name = seq!['r'];
    assert(s[25 + n] == 'r');
    assert(s.len() == 26 + n);
    assert(s.subrange(25 + n, 26 + n) =~= name);
    lemma_small_name();
    lemma_word_token(s, 25 + n, 26 + n, t13);
    assert(t13.push(TokenView::Ident(name)) =~= relationship_tokens(l));
}

proof fn lemma_relationship_command(l: Seq<char>)
    ensures
        cypher_lite::command_of(relationship_tokens(l)) == Ok::<CommandView, Seq<char>>(
            edges_with_label(l),
        ),
{
    reveal_strlit("WHERE");
    reveal_strlit("RETURN");
    let ts = relationship_tokens(l);
    reveal_with_fuel(cypher_lite::is_relationship, 5);
    assert(cypher_lite::is_relationship(ts, 1, 0, false));
    assert(cypher_lite::read_node_pattern(ts, 1) == Ok::<(Option<Seq<char>>, int), Seq<char>>(
        (None, 3),
    ));
    assert(cypher_lite::read_rel_pattern(ts, 5) == Ok::<(Option<Seq<char>>, int), Seq<char>>(
        (Some(l), 8),
    ));
    assert(cypher_lite::read_node_pattern(ts, 10) == Ok::<(Option<Seq<char>>, int), Seq<char>>(
        (None, 12),
    ));
    assert(cypher_lite::read_relationship(ts, 1) == Ok::<(Option<Seq<char>>, int), Seq<char>>(
        (Some(l), 12),
    ));
}

/// Both languages ask for the edges with a label alike.
pub proof fn law_languages_agree_on_relationships(l: Seq<char>)
    requires
        is_name(l),
    ensures
        SimpleQueryLanguage.command("MATCH EDGE WHERE label = \""@ + l + "\""@)
            == CypherLiteLanguage.command("MATCH ()-[r:"@ + l + "]->() RETURN r"@),
        SimpleQueryLanguage.command("MATCH EDGE WHERE label = \""@ + l + "\""@) matches Ok(c) && c
            == edges_with_label(l),
{
    assert forall|i: int| 0 <= i < l.len() implies #[trigger] l[i] != '"' by {
        assert(in_word(l[i]));
    }
    lemma_simple_edge_label(l);
    let s = "MATCH ()-[r:"@ + l + "]->() RETURN r"@;
    lemma_relationship_start(s, l);
    lemma_relationship_end(s, l);
    lemma_relationship_command(l);
}

// ---------------------------------------------------------- traversals and paths

/// The text of an identifier is one word in both languages.
proof fn lemma_reference_word(id: NodeId)
    ensures
        id.text().len() > 1,
        id.text()[0] == 'N',
        is_plain_text(id.text()),
        forall|k: int| 0 <= k < id.text().len() ==> in_word(#[trigger] id.text()[k]),
        word_token(id.text(), upper(id.text())) == Ok::<TokenView, Seq<char>>(
            TokenView::NodeRef(id.0),
        ),
        simple::reference(id.text(), 'N') == Some(id.0),
{
    reveal_strlit("N");
    let t = id.text();
    let d = decimal(id.0 as nat);
    lemma_numeral(id.0 as nat);
    assert(rest_of(t) =~= d);
    assert forall|k: int| 0 <= k < t.len() implies in_word(#[trigger] t[k]) && is_plain_char(
        t[k],
    ) by {
        if k > 0 {
            assert(t[k] == d[k - 1]);
        }
    }
}

/// A keyword and the space behind it are read.
proof fn lemma_keyword_step(s: Seq<char>, i: int, kw: Seq<char>, acc: Seq<TokenView>)
    requires
        0 <= i,
        kw.len() > 0,
        i + kw.len() < s.len(),
        s.subrange(i, i + kw.len()) == kw,
        s[i + kw.len()] == ' ',
        forall|k: int| 0 <= k < kw.len() ==> 'A' <= #[trigger] kw[k] && kw[k] <= 'Z',
        word_token(kw, kw) == Ok::<TokenView, Seq<char>>(TokenView::Keyword(kw)),
    ensures
        tokens_from(s, i, acc) == tokens_from(
            s,
            i + kw.len() + 1,
            acc.push(TokenView::Keyword(kw)),
        ),
{
    let j = i + kw.len();
    lemma_capitals(kw);
    assert forall|k: int| i <= k < j implies in_word(#[trigger] s[k]) by {
        assert(s.subrange(i, j)[k - i] == kw[k - i]);
    }
    assert(s.subrange(i, j)[0] == kw[0]);
    lemma_word_token(s, i, j, acc);
    assert(is_space(s[j]));
}

/// A reference at the end of a query is read.
proof fn lemma_reference_step(s: Seq<char>, i: int, id: NodeId, acc: Seq<TokenView>)
    requires
        0 <= i,
        i + id.text().len() <= s.len(),
        s.subrange(i, i + id.text().len()) == id.text(),
        i + id.text().len() < s.len() ==> !in_word(s[i + id.text().len()]),
    ensures
        tokens_from(s, i, acc) == tokens_from(
            s,
            i + id.text().len(),
            acc.push(TokenView::NodeRef(id.0)),
        ),
{
    let t = id.text();
    let j = i + t.len();
    lemma_reference_word(id);
    assert forall|k: int| i <= k < j implies in_word(#[trigger] s[k]) by {
        assert(s.subrange(i, j)[k - i] == t[k - i]);
    }
    assert(s.subrange(i, j)[0] == t[0]);
    lemma_word_token(s, i, j, acc);
}

/// The name of a traversal in a query.
pub open spec fn kind_word(kind: TraversalKind) -> Seq<char> {
    match kind {
        TraversalKind::Bfs => "BFS"@,
        TraversalKind::Dfs => "DFS"@,
    }
}

proof fn lemma_more_keywords()
    ensures
        word_token("TRAVERSE"@, "TRAVERSE"@) == Ok::<TokenView, Seq<char>>(
            TokenView::Keyword("TRAVERSE"@),
        ),
        word_token("PATH"@, "PATH"@) == Ok::<TokenView, Seq<char>>(TokenView::Keyword("PATH"@)),
        word_token("FROM"@, "FROM"@) == Ok::<TokenView, Seq<char>>(TokenView::Keyword("FROM"@)),
        word_token("TO"@, "TO"@) == Ok::<TokenView, Seq<char>>(TokenView::Keyword("TO"@)),
        word_token("BFS"@, "BFS"@) == Ok::<TokenView, Seq<char>>(TokenView::Keyword("BFS"@)),
        word_token("DFS"@, "DFS"@) == Ok::<TokenView, Seq<char>>(TokenView::Keyword("DFS"@)),
{
    reveal_strlit("TRAVERSE");
    reveal_strlit("PATH");
    reveal_strlit("FROM");
    reveal_strlit("TO");
    reveal_strlit("BFS");
    reveal_strlit("DFS");
    reveal_strlit("TRUE");
    reveal_strlit("FALSE");
    assert("TO"@.len() == 2 && "TRUE"@.len() == 4);
    assert("TRAVERSE"@.len() == 8);
    assert("FROM"@[1] != "FALSE"@[1]);
}

proof fn lemma_simple_traverse(kind: TraversalKind, start: NodeId)
    ensures
        simple::command_of(
            query_words("TRAVERSE "@ + kind_word(kind) + " FROM "@ + start.text()),
        ) == Ok::<CommandView, Seq<char>>(CommandView::Traverse { kind, start }),
{
    reveal_strlit("TRAVERSE ");
    reveal_strlit(" FROM ");
    reveal_strlit("TRAVERSE");
    reveal_strlit("FROM");
    reveal_strlit("BFS");
    reveal_strlit("DFS");
    reveal_strlit("MATCH");
    reveal_strlit("GET");
    let t = start.text();
    let k = kind_word(kind);
    let q = "TRAVERSE "@ + k + " FROM "@ + t;
    let e = Seq::<char>::empty();
    let none = Seq::<Seq<char>>::empty();
    let sp = seq![' '];
    assert(ready(e, none));
    let s1 = e + "TRAVERSE"@ + sp;
    let w1 = none.push("TRAVERSE"@);
    lemma_word(e, none, "TRAVERSE"@);
    let s2 = s1 + k + sp;
    let w2 = w1.push(k);
    lemma_word(s1, w1, k);
    let s3 = s2 + "FROM"@ + sp;
    let w3 = w2.push("FROM"@);
    lemma_word(s2, w2, "FROM"@);
    lemma_reference_word(start);
    lemma_word(s3, w3, t);
    assert(q =~= s3 + t);
    let ws = query_words(q);
    assert(words_of(q) == w3.push(t));
    assert(ws.len() == 4);
    assert(ws[0].text == "TRAVERSE"@ && ws[1].text == k && ws[2].text == "FROM"@);
    assert(ws[3].text == t);
    lemma_capitals("TRAVERSE"@);
    lemma_capitals(k);
    assert(ws[0].upper == "TRAVERSE"@ && ws[1].upper == k);
    assert("TRAVERSE"@[0] != "MATCH"@[0] && "TRAVERSE"@[0] != "GET"@[0]);
    assert("DFS"@[0] != "BFS"@[0]);
    assert(simple::read_start(ws, 2, kind) == Ok::<CommandView, Seq<char>>(
        CommandView::Traverse { kind, start },
    ));
}

proof fn lemma_cypher_traverse(kind: TraversalKind, start: NodeId)
    ensures
        tokens_of("TRAVERSE "@ + kind_word(kind) + " FROM "@ + start.text()) matches Ok(ts)
            && cypher_lite::command_of(ts) == Ok::<CommandView, Seq<char>>(
            CommandView::Traverse { kind, start },
        ),
{
    reveal_strlit("TRAVERSE ");
    reveal_strlit(" FROM ");
    reveal_strlit("TRAVERSE");
    reveal_strlit("FROM");
    reveal_strlit("BFS");
    reveal_strlit("DFS");
    reveal_strlit("MATCH");
    let t = start.text();
    let k = kind_word(kind);
    let s = "TRAVERSE "@ + k + " FROM "@ + t;
    let n = t.len() as int;
    let none = Seq::<TokenView>::empty();
    lemma_more_keywords();
    assert(s.len() == 18 + n);
    assert(s.subrange(0, 8) =~= "TRAVERSE"@);
    lemma_reference_word(start);
    lemma_keyword_step(s, 0, "TRAVERSE"@, none);
    let t1 = none.push(TokenView::Keyword("TRAVERSE"@));
    assert(s.subrange(9, 12) =~= k);
    lemma_keyword_step(s, 9, k, t1);
    let t2 = t1.push(TokenView::Keyword(k));
    assert(s.subrange(13, 17) =~= "FROM"@);
    lemma_keyword_step(s, 13, "FROM"@, t2);
    let t3 = t2.push(TokenView::Keyword("FROM"@));
    assert(s.subrange(18, 18 + n) =~= t);
    lemma_reference_step(s, 18, start, t3);
    let ts = t3.push(TokenView::NodeRef(start.0));
    assert(tokens_of(s) == Ok::<Seq<TokenView>, Seq<char>>(ts));
    assert(ts.len() == 4);
    assert("TRAVERSE"@[0] != "MATCH"@[0]);
    assert("DFS"@[0] != "BFS"@[0]);
    assert(cypher_lite::read_traverse(ts, 1) == Ok::<CommandView, Seq<char>>(
        CommandView::Traverse { kind, start },
    ));
}

/// A traversal is written in the same way in both languages, and means the same.
pub proof fn law_languages_agree_on_traversals(kind: TraversalKind, start: NodeId)
    ensures
        SimpleQueryLanguage.command("TRAVERSE "@ + kind_word(kind) + " FROM "@ + start.text())
            == CypherLiteLanguage.command(
            "TRAVERSE "@ + kind_word(kind) + " FROM "@ + start.text(),
        ),
        SimpleQueryLanguage.command("TRAVERSE "@ + kind_word(kind) + " FROM "@ + start.text())
            matches Ok(c) && c == (CommandView::Traverse { kind, start }),
{
    lemma_simple_traverse(kind, start);
    lemma_cypher_traverse(kind, start);
}

proof fn lemma_simple_path(start: NodeId, goal: NodeId)
    ensures
        simple::command_of(query_words("PATH FROM "@ + start.text() + " TO "@ + goal.text()))
            == Ok::<CommandView, Seq<char>>(CommandView::ShortestPath { start, goal }),
{
    reveal_strlit("PATH FROM ");
    reveal_strlit(" TO ");
    reveal_strlit("PATH");
    reveal_strlit("FROM");
    reveal_strlit("TO");
    reveal_strlit("MATCH");
    reveal_strlit("GET");
    reveal_strlit("TRAVERSE");
    let a = start.text();
    let b = goal.text();
    let q = "PATH FROM "@ + a + " TO "@ + b;
    let e = Seq::<char>::empty();
    let none = Seq::<Seq<char>>::empty();
    let sp = seq![' '];
    assert(ready(e, none));
    let s1 = e + "PATH"@ + sp;
    let w1 = none.push("PATH"@);
    lemma_word(e, none, "PATH"@);
    let s2 = s1 + "FROM"@ + sp;
    let w2 = w1.push("FROM"@);
    lemma_word(s1, w1, "FROM"@);
    lemma_reference_word(start);
    lemma_reference_word(goal);
    let s3 = s2 + a + sp;
    let w3 = w2.push(a);
    lemma_word(s2, w2, a);
    let s4 = s3 + "TO"@ + sp;
    let w4 = w3.push("TO"@);
    lemma_word(s3, w3, "TO"@);
    lemma_word(s4, w4, b);
    assert(q =~= s4 + b);
    let ws = query_words(q);
    assert(words_of(q) == w4.push(b));
    assert(ws.len() == 5);
    assert(ws[0].text == "PATH"@ && ws[1].text == "FROM"@ && ws[2].text == a);
    assert(ws[3].text == "TO"@ && ws[4].text == b);
    lemma_capitals("PATH"@);
    assert(ws[0].upper == "PATH"@);
    assert("PATH"@[0] != "MATCH"@[0] && "PATH"@[0] != "GET"@[0] && "PATH"@[0] != "TRAVERSE"@[0]);
    assert(simple::read_path(ws, 1) == Ok::<CommandView, Seq<char>>(
        CommandView::ShortestPath { start, goal },
    ));
}

/// The tokens of a query for a path.
spec fn path_tokens(start: NodeId, goal: NodeId) -> Seq<TokenView> {
    seq![
        TokenView::Keyword("PATH"@),
        TokenView::Keyword("FROM"@),
        TokenView::NodeRef(start.0),
        TokenView::Keyword("TO"@),
        TokenView::NodeRef(goal.0),
    ]
}

proof fn lemma_path_tokens_start(s: Seq<char>, start: NodeId, goal: NodeId)
    requires
        s == "PATH FROM "@ + start.text() + " TO "@ + goal.text(),
    ensures
        tokens_of(s) == tokens_from(
            s,
            11 + start.text().len() as int,
            path_tokens(start, goal).take(3),
        ),
{
    reveal_strlit("PATH FROM ");
    reveal_strlit(" TO ");
    reveal_strlit("PATH");
    reveal_strlit("FROM");
    let a = start.text();
    let n = a.len() as int;
    let none = Seq::<TokenView>::empty();
    lemma_more_keywords();
    lemma_reference_word(start);
    lemma_reference_word(goal);
    assert(s.subrange(0, 4) =~= "PATH"@);
    lemma_keyword_step(s, 0, "PATH"@, none);
    let t1 = none.push(TokenView::Keyword("PATH"@));
    assert(s.subrange(5, 9) =~= "FROM"@);
    lemma_keyword_step(s, 5, "FROM"@, t1);
    let t2 = t1.push(TokenView::Keyword("FROM"@));
    assert(s.subrange(10, 10 + n) =~= a);
    assert(s[10 + n] == ' ');
    lemma_reference_step(s, 10, start, t2);
    let t3 = t2.push(TokenView::NodeRef(start.0));
    assert(is_space(s[10 + n]));
    assert(t3 =~= path_tokens(start, goal).take(3));
}

proof fn lemma_path_tokens_end(s: Seq<char>, start: NodeId, goal: NodeId)
    requires
        s == "PATH FROM "@ + start.text() + " TO "@ + goal.text(),
    ensures
        tokens_from(s, 11 + start.text().len() as int, path_tokens(start, goal).take(3)) == Ok::<
            Seq<TokenView>,
            Seq<char>,
        >(path_tokens(start, goal)),
{
    reveal_strlit("PATH FROM ");
    reveal_strlit(" TO ");
    reveal_strlit("TO");
    let b = goal.text();
    let n = start.text().len() as int;
    let m = b.len() as int;
    lemma_more_keywords();
    lemma_reference_word(goal);
    let t3 = path_tokens(start, goal).take(3);
    assert(s.len() == 14 + n + m);
    assert(s.subrange(11 + n, 13 + n) =~= "TO"@);
    assert(s[13 + n] == ' ');
    lemma_keyword_step(s, 11 + n, "TO"@, t3);
    let t4 = t3.push(TokenView::Keyword("TO"@));
    assert(s.subrange(14 + n, 14 + n + m) =~= b);
    lemma_reference_step(s, 14 + n, goal, t4);
    assert(t4.push(TokenView::NodeRef(goal.0)) =~= path_tokens(start, goal));
}

proof fn lemma_path_command(start: NodeId, goal: NodeId)
    ensures
        cypher_lite::command_of(path_tokens(start, goal)) == Ok::<CommandView, Seq<char>>(
            CommandView::ShortestPath { start, goal },
        ),
{
    reveal_strlit("PATH");
    reveal_strlit("MATCH");
    reveal_strlit("TRAVERSE");
    let ts = path_tokens(start, goal);
    assert("PATH"@[0] != "MATCH"@[0] && "PATH"@[0] != "TRAVERSE"@[0]);
    assert(cypher_lite::read_path(ts, 1) == Ok::<CommandView, Seq<char>>(
        CommandView::ShortestPath { start, goal },
    ));
}

/// A path is asked for in the same way in both languages, and means the same.
pub proof fn law_languages_agree_on_paths(start: NodeId, goal: NodeId)
    ensures
        SimpleQueryLanguage.command("PATH FROM "@ + start.text() + " TO "@ + goal.text())
            == CypherLiteLanguage.command("PATH FROM "@ + start.text() + " TO "@ + goal.text()),
        SimpleQueryLanguage.command("PATH FROM "@ + start.text() + " TO "@ + goal.text())
            matches Ok(c) && c == (CommandView::ShortestPath { start, goal }),
{
    lemma_simple_path(start, goal);
    let s = "PATH FROM "@ + start.text() + " TO "@ + goal.text();
    lemma_path_tokens_start(s, start, goal);
    lemma_path_tokens_end(s, start, goal);
    lemma_path_command(start, goal);
}

} // verus!
