//! What queries mean that are written down in the simple language.

use crate::float::Float64;
use crate::float_display::magnitude_text;
use crate::float_laws::{law_double_reads_back, lemma_double_text};
use crate::float_text::{float_of_text, is_digit};
use crate::model::edge::EdgeView;
use crate::model::edge_id::EdgeId;
use crate::model::error::GraphErrorView;
use crate::model::node::NodeView;
use crate::model::node_id::NodeId;
use crate::model::value::ValueView;
use crate::number_text::{
    law_integer_reads_back, lemma_numeral, rest_of, signed_of_text, unsigned_of_text,
};
use crate::query::ast::{
    CommandView, ComparisonOp, ConditionView, EdgeFilterView, LabelConditionView, NodeFilterView,
    WeightCondition,
};
use crate::query::languages::agreement::{
    is_plain_char, is_plain_text, lemma_capitals, lemma_scan_quoted, lemma_word, ready,
};
use crate::query::languages::simple;
use crate::query::languages::simple::{
    any_edge, any_node, command_of, edge_chain, in_quotes, law_identifiers_read_back, node_chain,
    read_op, unquoted, value_of_word, SimpleQueryLanguage,
};
use crate::query::languages::simple_tokens::{query_words, scan, words_of, Scan, WordView};
use crate::query::port::QueryLanguagePort;
use crate::text::{decimal, int_text};
use crate::unicode::{
    ascii_lower, ascii_upper, is_ascii_char, is_ascii_text, same_word, upper,
};
use vstd::prelude::*;

verus! {

// ---------------------------------------------------------------------- literals

/// Whether a value can be written down in a query: a text without a quote, and a
/// number that needs a point.
pub open spec fn has_literal(v: ValueView) -> bool {
    match v {
        ValueView::Text(s) => !s.contains('"'),
        ValueView::Float(x) => x.finite() && v.text().contains('.'),
        _ => true,
    }
}

/// A literal is read as the value that it is written for: the text of a value that can
/// be written down is read as that value.
#[verifier::rlimit(50)]
pub proof fn law_literals_read_back(v: ValueView)
    requires
        has_literal(v),
    ensures
        value_of_word(v.text()) == Ok::<ValueView, Seq<char>>(v),
{
    reveal_strlit("true");
    reveal_strlit("false");
    reveal_strlit("null");
    reveal_strlit("\"");
    let t = v.text();
    match v {
        ValueView::Text(s) => {
            assert(t[0] == '"' && t.last() == '"');
            assert(unquoted(t) =~= s);
        },
        ValueView::Integer(i) => {
            law_integer_reads_back(i);
            lemma_integer_text(i);
            lemma_no_keyword(t);
        },
        ValueView::Float(x) => {
            law_double_reads_back(x);
            lemma_float_text(x);
            lemma_no_keyword(t);
        },
        _ => {
            assert(ascii_lower('t') != ascii_lower('f'));
            assert(ascii_lower('t') != ascii_lower('n'));
            assert(ascii_lower(t[0]) == t[0]);
            if v is Null {
                assert(ascii_lower(t[0]) != ascii_lower("true"@[0]));
            }
        },
    }
}

/// A truth value and the missing value are read in either case of their letters.
pub proof fn law_words_for_values_in_either_case(v: ValueView, t: Seq<char>)
    requires
        v is Boolean || v is Null,
        same_word(t, v.text()),
    ensures
        value_of_word(t) == Ok::<ValueView, Seq<char>>(v),
{
    reveal_strlit("true");
    reveal_strlit("false");
    reveal_strlit("null");
    assert(ascii_lower(t[0]) == v.text()[0]);
    assert(ascii_lower('"') == '"');
    if v is Null {
        assert(ascii_lower(t[0]) != ascii_lower("true"@[0]));
    }
}

proof fn lemma_integer_text(i: i64)
    ensures
        is_plain_text(int_text(i as int)),
        int_text(i as int).len() > 0,
        !int_text(i as int).contains('.'),
        is_digit(int_text(i as int)[0]) || int_text(i as int)[0] == '-',
{
    reveal_strlit("-");
    let n: nat = if i < 0 {
        (-i) as nat
    } else {
        i as nat
    };
    lemma_numeral(n);
    let t = int_text(i as int);
    assert(is_digit(decimal(n)[0]));
    assert forall|k: int| 0 <= k < t.len() implies is_digit(#[trigger] t[k]) || t[k] == '-' by {
        if i < 0 && k > 0 {
            assert(t[k] == decimal(n)[k - 1]);
        }
    }
    assert forall|k: int| 0 <= k < t.len() implies is_plain_char(#[trigger] t[k]) && t[k]
        != '.' by {
        assert(is_digit(t[k]) || t[k] == '-');
    }
}

proof fn lemma_float_text(x: Float64)
    requires
        x.finite(),
    ensures
        is_plain_text(ValueView::Float(x).text()),
        ValueView::Float(x).text().len() > 0,
        is_digit(ValueView::Float(x).text()[0]) || ValueView::Float(x).text()[0] == '-',
{
    let point = lemma_double_text(x);
    let t = ValueView::Float(x).text();
    let m = magnitude_text(x.magnitude());
    assert forall|k: int| 0 <= k < t.len() implies is_plain_char(#[trigger] t[k]) by {
        let j = if x.negative() { k - 1 } else { k };
        if j >= 0 {
            assert(t[k] == m[j]);
            assert(j != point ==> is_digit(m[j]));
        }
    }
    assert(is_digit(m[0]));
}

proof fn lemma_no_keyword(t: Seq<char>)
    requires
        t.len() > 0,
        is_digit(t[0]) || t[0] == '-',
    ensures
        !same_word(t, "true"@),
        !same_word(t, "false"@),
        !same_word(t, "null"@),
        t[0] != '"',
{
    reveal_strlit("true");
    reveal_strlit("false");
    reveal_strlit("null");
    assert(ascii_lower(t[0]) == t[0]);
}

// ------------------------------------------------------------------------- words

/// Words with a space between each two of them.
pub open spec fn spaced(ws: Seq<Seq<char>>) -> Seq<char>
    decreases ws.len(),
{
    if ws.len() == 0 {
        Seq::empty()
    } else if ws.len() == 1 {
        ws[0]
    } else {
        spaced(ws.drop_last()) + " "@ + ws.last()
    }
}

/// Whether a text can stand as one word: it has neither quotes nor white space, or it
/// stands in quotes and has no others.
pub open spec fn is_word(w: Seq<char>) -> bool {
    ||| w.len() > 0 && is_plain_text(w)
    ||| in_quotes(w) && forall|i: int| 0 < i < w.len() - 1 ==> #[trigger] w[i] != '"'
}

proof fn lemma_one_word(s: Seq<char>, words: Seq<Seq<char>>, w: Seq<char>)
    requires
        ready(s, words),
        is_word(w),
    ensures
        ready(s + w + seq![' '], words.push(w)),
        words_of(s + w) == words.push(w),
{
    if w.len() > 0 && is_plain_text(w) {
        lemma_word(s, words, w);
    } else {
        let q = seq!['"'];
        let inner = w.subrange(1, w.len() - 1);
        let a = s + q;
        assert(a.drop_last() =~= s);
        assert(a.last() == '"');
        assert(Seq::<char>::empty().push('"') =~= q);
        assert(scan(a) == (Scan { words, current: q, quoted: true }));
        assert forall|i: int| 0 <= i < inner.len() implies #[trigger] inner[i] != '"' by {
            assert(inner[i] == w[i + 1]);
        }
        lemma_scan_quoted(a, inner);
        let b = a + inner + q;
        assert(b.drop_last() =~= a + inner);
        assert(b.last() == '"');
        assert((q + inner).push('"') =~= w);
        assert(b =~= s + w);
        assert(ready(s + w, words.push(w)));
        let c = s + w + seq![' '];
        assert(c.drop_last() =~= s + w);
        assert(c.last() == ' ');
    }
}

/// Words that are written down with spaces between them are read as these words.
pub proof fn law_spaced_words_read_back(ws: Seq<Seq<char>>)
    requires
        forall|i: int| 0 <= i < ws.len() ==> is_word(#[trigger] ws[i]),
    ensures
        words_of(spaced(ws)) == ws,
{
    if ws.len() == 0 {
        assert(ws =~= Seq::empty());
    } else {
        lemma_spaced(ws);
    }
}

proof fn lemma_spaced(ws: Seq<Seq<char>>)
    requires
        ws.len() > 0,
        forall|i: int| 0 <= i < ws.len() ==> is_word(#[trigger] ws[i]),
    ensures
        words_of(spaced(ws)) == ws,
        ready(spaced(ws) + seq![' '], ws),
    decreases ws.len(),
{
    reveal_strlit(" ");
    let rest = ws.drop_last();
    let w = ws.last();
    assert(is_word(ws[ws.len() - 1]));
    assert(rest.push(w) =~= ws);
    if ws.len() == 1 {
        let e = Seq::<char>::empty();
        assert(ready(e, Seq::empty()));
        assert(rest =~= Seq::empty());
        lemma_one_word(e, rest, w);
        assert(e + w =~= w);
    } else {
        assert forall|i: int| 0 <= i < rest.len() implies is_word(#[trigger] rest[i]) by {
            assert(rest[i] == ws[i]);
        }
        lemma_spaced(rest);
        lemma_one_word(spaced(rest) + seq![' '], rest, w);
        assert(" "@ =~= seq![' ']);
    }
}

// -------------------------------------------------------------------- conditions

/// One condition of a query.
pub enum Clause {
    Label(LabelConditionView),
    Weight(WeightCondition),
    Property(ConditionView),
}

impl Clause {
    /// Whether the condition can be written down.
    pub open spec fn writable(self) -> bool {
        match self {
            Clause::Label(c) => !c.value.contains('"'),
            Clause::Weight(c) => c.value.finite(),
            Clause::Property(c) => is_plain_text(c.key) && has_literal(c.value),
        }
    }

    /// The three words of the condition: what is compared, the sign of the operator, and
    /// what it is compared to.
    pub open spec fn words(self) -> Seq<Seq<char>> {
        match self {
            Clause::Label(c) => seq!["label"@, c.op.text(), ValueView::Text(c.value).text()],
            Clause::Weight(c) => seq!["weight"@, c.op.text(), ValueView::Float(c.value).text()],
            Clause::Property(c) => seq!["props."@ + c.key, c.op.text(), c.value.text()],
        }
    }

    /// Whether a node meets the condition.
    pub open spec fn met_by_node(self, n: NodeView) -> bool {
        match self {
            Clause::Label(c) => c.op.holds_values(ValueView::Text(n.label), ValueView::Text(c.value)),
            Clause::Weight(_) => false,
            Clause::Property(c) => n.properties.contains_key(c.key) && c.op.holds_values(
                n.properties[c.key],
                c.value,
            ),
        }
    }

    /// Whether an edge meets the condition.
    pub open spec fn met_by_edge(self, e: EdgeView) -> bool {
        match self {
            Clause::Label(c) => c.op.holds_values(ValueView::Text(e.label), ValueView::Text(c.value)),
            Clause::Weight(c) => c.op.holds_floats(e.weight, c.value),
            Clause::Property(c) => e.properties.contains_key(c.key) && c.op.holds_values(
                e.properties[c.key],
                c.value,
            ),
        }
    }
}

/// The words of conditions with `AND` between them.
pub open spec fn chain_words(cs: Seq<Clause>) -> Seq<Seq<char>>
    decreases cs.len(),
{
    if cs.len() == 0 {
        Seq::empty()
    } else if cs.len() == 1 {
        cs[0].words()
    } else {
        chain_words(cs.drop_last()) + seq!["AND"@] + cs.last().words()
    }
}

proof fn lemma_chain_words(cs: Seq<Clause>)
    requires
        cs.len() > 0,
    ensures
        chain_words(cs).len() == 4 * cs.len() - 1,
        forall|i: int|
            0 <= i < cs.len() ==> {
                &&& chain_words(cs)[4 * i] == (#[trigger] cs[i]).words()[0]
                &&& chain_words(cs)[4 * i + 1] == cs[i].words()[1]
                &&& chain_words(cs)[4 * i + 2] == cs[i].words()[2]
                &&& i < cs.len() - 1 ==> chain_words(cs)[4 * i + 3] == "AND"@
            },
    decreases cs.len(),
{
    if cs.len() > 1 {
        let rest = cs.drop_last();
        lemma_chain_words(rest);
        let a = chain_words(rest);
        let all = chain_words(cs);
        assert(all.len() == a.len() + 4);
        assert forall|i: int| 0 <= i < cs.len() implies {
            &&& all[4 * i] == (#[trigger] cs[i]).words()[0]
            &&& all[4 * i + 1] == cs[i].words()[1]
            &&& all[4 * i + 2] == cs[i].words()[2]
            &&& i < cs.len() - 1 ==> all[4 * i + 3] == "AND"@
        } by {
            if i < rest.len() {
                assert(rest[i] == cs[i]);
                assert(all[4 * i] == a[4 * i]);
                assert(all[4 * i + 1] == a[4 * i + 1]);
                assert(all[4 * i + 2] == a[4 * i + 2]);
                if i < rest.len() - 1 {
                    assert(all[4 * i + 3] == a[4 * i + 3]);
                } else {
                    assert(all[4 * i + 3] == "AND"@);
                }
            }
        }
    }
}

proof fn lemma_sign(op: ComparisonOp)
    ensures
        op.text().len() > 0,
        is_plain_text(op.text()),
        forall|ws: Seq<WordView>, p: int|
            0 <= p < ws.len() && ws[p].text == op.text() ==> #[trigger] read_op(ws, p) == Ok::<
                (ComparisonOp, int),
                Seq<char>,
            >((op, p + 1)),
{
    reveal_strlit("=");
    reveal_strlit("!=");
    reveal_strlit("<");
    reveal_strlit("<=");
    reveal_strlit(">");
    reveal_strlit(">=");
    assert("="@.len() == 1 && "<"@.len() == 1 && ">"@.len() == 1);
    assert("="@[0] == '=' && "<"@[0] == '<' && ">"@[0] == '>');
    assert("!="@.len() == 2 && "<="@.len() == 2 && ">="@.len() == 2);
    assert("!="@[0] == '!' && "<="@[0] == '<' && ">="@[0] == '>');
}

/// Each sign of comparison is read as the operator that it is shown for, and nothing else
/// is read as an operator.
pub proof fn law_signs_read_back(ws: Seq<WordView>, p: int, op: ComparisonOp)
    requires
        0 <= p < ws.len(),
    ensures
        ws[p].text == op.text() <==> read_op(ws, p) == Ok::<(ComparisonOp, int), Seq<char>>(
            (op, p + 1),
        ),
        read_op(ws, p) is Ok ==> ws[p].text == read_op(ws, p)->Ok_0.0.text(),
{
    lemma_sign(op);
}

/// A word is read as a value only where it is written for it: a text stands in quotes, a
/// truth value and the missing value are their words, and a number is one with a point or
/// an integer.
pub proof fn law_only_literals_are_values(t: Seq<char>, v: ValueView)
    requires
        value_of_word(t) == Ok::<ValueView, Seq<char>>(v),
    ensures
        match v {
            ValueView::Text(s) => t == "\""@ + s + "\""@,
            ValueView::Boolean(_) => same_word(t, v.text()),
            ValueView::Null => same_word(t, v.text()),
            ValueView::Float(x) => t.contains('.') && float_of_text(t) == Some(x),
            ValueView::Integer(i) => !t.contains('.') && signed_of_text(t) == Some(i),
        },
{
    reveal_strlit("\"");
    if let ValueView::Text(s) = v {
        assert(t =~= "\""@ + s + "\""@);
    }
}

/// A word refers to a node or an edge only where it is the letter and digits that make up
/// the number.
pub proof fn law_only_references_refer(t: Seq<char>, letter: char, n: u64)
    requires
        simple::reference(t, letter) == Some(n),
    ensures
        t.len() > 1,
        t[0] == letter,
        forall|i: int| 1 <= i < t.len() ==> is_digit(#[trigger] t[i]),
        unsigned_of_text(t.skip(1)) == Some(n),
{
    let r = rest_of(t);
    assert(r =~= t.skip(1));
    assert forall|i: int| 1 <= i < t.len() implies is_digit(#[trigger] t[i]) by {
        assert(r[i - 1] == t[i]);
        assert(is_digit(r[i - 1]));
    }
    assert(is_digit(r[0]));
}

/// A query is understood only where its first word is one of the five commands, in any
/// case of letters; one without a word is not.
pub proof fn law_only_commands_are_understood(text: Seq<char>)
    requires
        SimpleQueryLanguage.command(text) is Ok,
    ensures
        query_words(text).len() > 0,
        ({
            let first = query_words(text)[0].upper;
            first == "MATCH"@ || first == "GET"@ || first == "TRAVERSE"@ || first == "PATH"@ || first
                == "COUNT"@
        }),
{
}

proof fn lemma_literal_word(v: ValueView)
    requires
        has_literal(v),
    ensures
        is_word(v.text()),
{
    reveal_strlit("true");
    reveal_strlit("false");
    reveal_strlit("null");
    reveal_strlit("\"");
    match v {
        ValueView::Text(s) => {
            let t = v.text();
            assert forall|i: int| 0 < i < t.len() - 1 implies #[trigger] t[i] != '"' by {
                assert(t[i] == s[i - 1]);
            }
        },
        ValueView::Integer(i) => {
            lemma_integer_text(i);
        },
        ValueView::Float(x) => {
            lemma_float_text(x);
        },
        _ => {},
    }
}

proof fn lemma_clause_words(c: Clause)
    requires
        c.writable(),
    ensures
        c.words().len() == 3,
        is_word(c.words()[0]),
        is_word(c.words()[1]),
        is_word(c.words()[2]),
{
    reveal_strlit("label");
    reveal_strlit("weight");
    reveal_strlit("props.");
    match c {
        Clause::Label(l) => {
            lemma_sign(l.op);
            lemma_literal_word(ValueView::Text(l.value));
        },
        Clause::Weight(w) => {
            lemma_sign(w.op);
            lemma_float_text(w.value);
        },
        Clause::Property(p) => {
            lemma_sign(p.op);
            lemma_literal_word(p.value);
            let t = "props."@ + p.key;
            assert forall|i: int| 0 <= i < t.len() implies is_plain_char(#[trigger] t[i]) by {
                if i >= 6 {
                    assert(t[i] == p.key[i - 6]);
                }
            }
        },
    }
}

/// The words of a query for nodes or edges with conditions.
pub open spec fn match_words(what: Seq<char>, cs: Seq<Clause>) -> Seq<Seq<char>> {
    seq!["MATCH"@, what, "WHERE"@] + chain_words(cs)
}

/// Whether read words are those of a query with conditions.
spec fn are_match_words(ws: Seq<WordView>, cs: Seq<Clause>) -> bool {
    &&& ws.len() == 4 * cs.len() + 2
    &&& forall|i: int|
        0 <= i < cs.len() ==> {
            &&& ws[3 + 4 * i].text == (#[trigger] cs[i]).words()[0]
            &&& ws[4 + 4 * i].text == cs[i].words()[1]
            &&& ws[5 + 4 * i].text == cs[i].words()[2]
            &&& i < cs.len() - 1 ==> ws[6 + 4 * i].text == "AND"@
        }
    &&& forall|i: int| 0 <= i < cs.len() ==> (#[trigger] cs[i]).writable()
}

#[verifier::rlimit(50)]
proof fn lemma_match_words(what: Seq<char>, cs: Seq<Clause>)
    requires
        what == "NODE"@ || what == "EDGE"@,
        cs.len() > 0,
        forall|i: int| 0 <= i < cs.len() ==> (#[trigger] cs[i]).writable(),
    ensures
        ({
            let ws = query_words(spaced(match_words(what, cs)));
            &&& are_match_words(ws, cs)
            &&& ws[0].upper == "MATCH"@
            &&& ws[1].upper == what
            &&& ws[2].text == "WHERE"@
        }),
{
    reveal_strlit("MATCH");
    reveal_strlit("NODE");
    reveal_strlit("EDGE");
    reveal_strlit("WHERE");
    reveal_strlit("AND");
    let all = match_words(what, cs);
    let chain = chain_words(cs);
    lemma_chain_words(cs);
    assert forall|k: int| 0 <= k < all.len() implies is_word(#[trigger] all[k]) by {
        if k >= 3 {
            let i = (k - 3) / 4;
            lemma_clause_words(cs[i]);
            assert(all[k] == chain[k - 3]);
            assert(k - 3 == 4 * i || k - 3 == 4 * i + 1 || k - 3 == 4 * i + 2 || k - 3 == 4 * i + 3);
        }
    }
    law_spaced_words_read_back(all);
    let ws = query_words(spaced(all));
    assert(ws.len() == all.len());
    assert(forall|k: int| 0 <= k < all.len() ==> #[trigger] ws[k].text == all[k]);
    lemma_capitals("MATCH"@);
    lemma_capitals(what);
    assert forall|i: int| 0 <= i < cs.len() implies {
        &&& ws[3 + 4 * i].text == (#[trigger] cs[i]).words()[0]
        &&& ws[4 + 4 * i].text == cs[i].words()[1]
        &&& ws[5 + 4 * i].text == cs[i].words()[2]
        &&& i < cs.len() - 1 ==> ws[6 + 4 * i].text == "AND"@
    } by {
        assert(all[3 + 4 * i] == chain[4 * i]);
        assert(all[4 + 4 * i] == chain[4 * i + 1]);
        assert(all[5 + 4 * i] == chain[4 * i + 2]);
        if i < cs.len() - 1 {
            assert(all[6 + 4 * i] == chain[4 * i + 3]);
        }
    }
    assert(ws[0].text == all[0] && ws[1].text == all[1] && ws[2].text == all[2]);
}

proof fn lemma_field(key: Seq<char>)
    ensures
        same_word("label"@, "label"@),
        same_word("weight"@, "weight"@),
        !same_word("weight"@, "label"@),
        !same_word("props."@ + key, "label"@),
        !same_word("props."@ + key, "weight"@),
        simple::names_property("props."@ + key),
        simple::property_name("props."@ + key) == key,
        same_word("AND"@, "AND"@),
        same_word("WHERE"@, "WHERE"@),
{
    reveal_strlit("label");
    reveal_strlit("weight");
    reveal_strlit("props.");
    let t = "props."@ + key;
    assert(t.take(6) =~= "props."@);
    assert(t.skip(6) =~= key);
    assert(t[0] == 'p');
    assert(ascii_lower(t[0]) != ascii_lower("weight"@[0]));
}

/// A filter for nodes with the conditions from a position on added to it.
pub open spec fn node_filter(f: NodeFilterView, cs: Seq<Clause>, i: int) -> NodeFilterView
    decreases cs.len() - i,
{
    if i < 0 || i >= cs.len() {
        f
    } else {
        match cs[i] {
            Clause::Label(l) => node_filter(f.and_label(l), cs, i + 1),
            Clause::Property(q) => node_filter(f.and_property(q), cs, i + 1),
            Clause::Weight(_) => node_filter(f, cs, i + 1),
        }
    }
}

/// A filter for edges with the conditions from a position on added to it.
pub open spec fn edge_filter(f: EdgeFilterView, cs: Seq<Clause>, i: int) -> EdgeFilterView
    decreases cs.len() - i,
{
    if i < 0 || i >= cs.len() {
        f
    } else {
        match cs[i] {
            Clause::Label(l) => edge_filter(f.and_label(l), cs, i + 1),
            Clause::Property(q) => edge_filter(f.and_property(q), cs, i + 1),
            Clause::Weight(w) => edge_filter(f.and_weight(w), cs, i + 1),
        }
    }
}

/// A filter lets those nodes pass that meet all conditions in it.
pub proof fn lemma_node_filter(f: NodeFilterView, cs: Seq<Clause>, i: int, n: NodeView)
    requires
        0 <= i <= cs.len(),
        forall|k: int| 0 <= k < cs.len() ==> !(#[trigger] cs[k] is Weight),
    ensures
        node_filter(f, cs, i).accepts(n) <==> f.accepts(n) && forall|k: int|
            i <= k < cs.len() ==> (#[trigger] cs[k]).met_by_node(n),
    decreases cs.len() - i,
{
    let blank = ConditionView { key: Seq::empty(), op: ComparisonOp::Eq, value: ValueView::Null };
    let none = LabelConditionView { op: ComparisonOp::Eq, value: Seq::empty() };
    if i < cs.len() {
        let c = cs[i];
        let g = match c {
            Clause::Label(l) => f.and_label(l),
            Clause::Property(q) => f.and_property(q),
            Clause::Weight(_) => f,
        };
        match c {
            Clause::Label(l) => {
                f.law_conditions_add_up(l, blank, n);
            },
            Clause::Property(q) => {
                f.law_conditions_add_up(none, q, n);
            },
            Clause::Weight(_) => {},
        }
        lemma_node_filter(g, cs, i + 1, n);
        assert(g.accepts(n) == (f.accepts(n) && cs[i].met_by_node(n)));
    }
}

/// A filter lets those edges pass that meet all conditions in it.
pub proof fn lemma_edge_filter(f: EdgeFilterView, cs: Seq<Clause>, i: int, e: EdgeView)
    requires
        0 <= i <= cs.len(),
    ensures
        edge_filter(f, cs, i).accepts(e) <==> f.accepts(e) && forall|k: int|
            i <= k < cs.len() ==> (#[trigger] cs[k]).met_by_edge(e),
    decreases cs.len() - i,
{
    let blank = ConditionView { key: Seq::empty(), op: ComparisonOp::Eq, value: ValueView::Null };
    let none = LabelConditionView { op: ComparisonOp::Eq, value: Seq::empty() };
    let any = WeightCondition { op: ComparisonOp::Eq, value: e.weight };
    if i < cs.len() {
        let c = cs[i];
        let g = match c {
            Clause::Label(l) => f.and_label(l),
            Clause::Property(q) => f.and_property(q),
            Clause::Weight(w) => f.and_weight(w),
        };
        match c {
            Clause::Label(l) => {
                f.law_conditions_add_up(l, any, blank, e);
            },
            Clause::Property(q) => {
                f.law_conditions_add_up(none, any, q, e);
            },
            Clause::Weight(w) => {
                f.law_conditions_add_up(none, w, blank, e);
            },
        }
        lemma_edge_filter(g, cs, i + 1, e);
        assert(g.accepts(e) == (f.accepts(e) && cs[i].met_by_edge(e)));
    }
}

proof fn lemma_read_label(ws: Seq<WordView>, p: int, c: LabelConditionView)
    requires
        0 <= p,
        p + 1 < ws.len(),
        ws[p].text == c.op.text(),
        ws[p + 1].text == ValueView::Text(c.value).text(),
    ensures
        simple::read_label(ws, p) == Ok::<(LabelConditionView, int), Seq<char>>((c, p + 2)),
{
    lemma_sign(c.op);
    reveal_strlit("\"");
    let t = ws[p + 1].text;
    assert(in_quotes(t));
    assert(unquoted(t) =~= c.value);
}

proof fn lemma_read_property(ws: Seq<WordView>, p: int, c: ConditionView)
    requires
        0 <= p,
        p + 1 < ws.len(),
        ws[p].text == c.op.text(),
        ws[p + 1].text == c.value.text(),
        has_literal(c.value),
    ensures
        simple::read_property(ws, p, c.key) == Ok::<(ConditionView, int), Seq<char>>((c, p + 2)),
{
    lemma_sign(c.op);
    law_literals_read_back(c.value);
}

proof fn lemma_read_weight(ws: Seq<WordView>, p: int, c: WeightCondition)
    requires
        0 <= p,
        p + 1 < ws.len(),
        ws[p].text == c.op.text(),
        ws[p + 1].text == ValueView::Float(c.value).text(),
        c.value.finite(),
    ensures
        simple::read_weight(ws, p) == Ok::<(WeightCondition, int), Seq<char>>((c, p + 2)),
{
    lemma_sign(c.op);
    law_double_reads_back(c.value);
}

/// A filter for nodes with one condition more.
spec fn node_filter_and(f: NodeFilterView, c: Clause) -> NodeFilterView {
    match c {
        Clause::Label(l) => f.and_label(l),
        Clause::Property(q) => f.and_property(q),
        Clause::Weight(_) => f,
    }
}

#[verifier::rlimit(50)]
proof fn lemma_node_condition(ws: Seq<WordView>, cs: Seq<Clause>, i: int, f: NodeFilterView)
    requires
        are_match_words(ws, cs),
        0 <= i < cs.len(),
        forall|k: int| 0 <= k < cs.len() ==> !(#[trigger] cs[k] is Weight),
    ensures
        simple::node_condition(ws, 3 + 4 * i, f) == Ok::<(NodeFilterView, int), Seq<char>>(
            (node_filter_and(f, cs[i]), 6 + 4 * i),
        ),
{
    let c = cs[i];
    let p = 3 + 4 * i;
    assert(c.writable());
    match c {
        Clause::Label(l) => {
            lemma_field(Seq::empty());
            lemma_read_label(ws, p + 1, l);
        },
        Clause::Property(q) => {
            lemma_field(q.key);
            lemma_read_property(ws, p + 1, q);
        },
        Clause::Weight(_) => {},
    }
}

proof fn lemma_node_chain(ws: Seq<WordView>, cs: Seq<Clause>, i: int, f: NodeFilterView)
    requires
        are_match_words(ws, cs),
        0 <= i < cs.len(),
        forall|k: int| 0 <= k < cs.len() ==> !(#[trigger] cs[k] is Weight),
    ensures
        node_chain(ws, 3 + 4 * i, f) == Ok::<(NodeFilterView, int), Seq<char>>(
            (node_filter(f, cs, i), (2 + 4 * cs.len()) as int),
        ),
    decreases cs.len() - i,
{
    let p = 3 + 4 * i;
    let g = node_filter_and(f, cs[i]);
    lemma_node_condition(ws, cs, i, f);
    lemma_field(Seq::empty());
    reveal_with_fuel(node_filter, 2);
    if i < cs.len() - 1 {
        assert(cs[i] == cs[i]);
        assert(ws[p + 3].text == "AND"@);
        lemma_node_chain(ws, cs, i + 1, g);
        assert(node_chain(ws, p, f) == node_chain(ws, p + 4, g));
    } else {
        assert(node_chain(ws, p, f) == Ok::<(NodeFilterView, int), Seq<char>>((g, p + 3)));
    }
}

/// A filter for edges with one condition more.
spec fn edge_filter_and(f: EdgeFilterView, c: Clause) -> EdgeFilterView {
    match c {
        Clause::Label(l) => f.and_label(l),
        Clause::Property(q) => f.and_property(q),
        Clause::Weight(w) => f.and_weight(w),
    }
}

#[verifier::rlimit(50)]
proof fn lemma_edge_condition(ws: Seq<WordView>, cs: Seq<Clause>, i: int, f: EdgeFilterView)
    requires
        are_match_words(ws, cs),
        0 <= i < cs.len(),
    ensures
        simple::edge_condition(ws, 3 + 4 * i, f) == Ok::<(EdgeFilterView, int), Seq<char>>(
            (edge_filter_and(f, cs[i]), 6 + 4 * i),
        ),
{
    let c = cs[i];
    let p = 3 + 4 * i;
    assert(c.writable());
    match c {
        Clause::Label(l) => {
            lemma_field(Seq::empty());
            lemma_read_label(ws, p + 1, l);
        },
        Clause::Property(q) => {
            lemma_field(q.key);
            lemma_read_property(ws, p + 1, q);
        },
        Clause::Weight(w) => {
            lemma_field(Seq::empty());
            lemma_read_weight(ws, p + 1, w);
        },
    }
}

proof fn lemma_edge_chain(ws: Seq<WordView>, cs: Seq<Clause>, i: int, f: EdgeFilterView)
    requires
        are_match_words(ws, cs),
        0 <= i < cs.len(),
    ensures
        edge_chain(ws, 3 + 4 * i, f) == Ok::<(EdgeFilterView, int), Seq<char>>(
            (edge_filter(f, cs, i), (2 + 4 * cs.len()) as int),
        ),
    decreases cs.len() - i,
{
    let p = 3 + 4 * i;
    let g = edge_filter_and(f, cs[i]);
    lemma_edge_condition(ws, cs, i, f);
    lemma_field(Seq::empty());
    reveal_with_fuel(edge_filter, 2);
    if i < cs.len() - 1 {
        assert(cs[i] == cs[i]);
        assert(ws[p + 3].text == "AND"@);
        lemma_edge_chain(ws, cs, i + 1, g);
        assert(edge_chain(ws, p, f) == edge_chain(ws, p + 4, g));
    } else {
        assert(edge_chain(ws, p, f) == Ok::<(EdgeFilterView, int), Seq<char>>((g, p + 3)));
    }
}

/// The command of a query with conditions.
pub proof fn lemma_match_commands(cs: Seq<Clause>)
    requires
        cs.len() > 0,
        forall|i: int| 0 <= i < cs.len() ==> (#[trigger] cs[i]).writable(),
    ensures
        (forall|i: int| 0 <= i < cs.len() ==> !(#[trigger] cs[i] is Weight)) ==> command_of(
            query_words(spaced(match_words("NODE"@, cs))),
        ) == Ok::<CommandView, Seq<char>>(CommandView::MatchNodes(node_filter(any_node(), cs, 0))),
        command_of(query_words(spaced(match_words("EDGE"@, cs)))) == Ok::<CommandView, Seq<char>>(
            CommandView::MatchEdges(edge_filter(any_edge(), cs, 0)),
        ),
{
    reveal_strlit("NODE");
    reveal_strlit("EDGE");
    assert("NODE"@[0] != "EDGE"@[0]);
    lemma_field(Seq::empty());
    lemma_match_words("NODE"@, cs);
    lemma_match_words("EDGE"@, cs);
    if forall|i: int| 0 <= i < cs.len() ==> !(#[trigger] cs[i] is Weight) {
        lemma_node_chain(query_words(spaced(match_words("NODE"@, cs))), cs, 0, any_node());
    }
    lemma_edge_chain(query_words(spaced(match_words("EDGE"@, cs))), cs, 0, any_edge());
}

/// A query for nodes with conditions, which may be any number of conditions on the label
/// and on properties, asks for the nodes that meet every one of them.
pub proof fn law_node_query_means_its_conditions(cs: Seq<Clause>)
    requires
        cs.len() > 0,
        forall|i: int| 0 <= i < cs.len() ==> (#[trigger] cs[i]).writable() && !(cs[i] is Weight),
    ensures
        SimpleQueryLanguage.command(spaced(match_words("NODE"@, cs))) matches Ok(
            CommandView::MatchNodes(f),
        ) && forall|n: NodeView| #[trigger]
            f.accepts(n) <==> forall|i: int|
                0 <= i < cs.len() ==> (#[trigger] cs[i]).met_by_node(n),
{
    lemma_match_commands(cs);
    let f = node_filter(any_node(), cs, 0);
    assert forall|n: NodeView| #[trigger] f.accepts(n) <==> forall|i: int|
        0 <= i < cs.len() ==> (#[trigger] cs[i]).met_by_node(n) by {
        lemma_node_filter(any_node(), cs, 0, n);
    }
}

/// A query for edges with conditions, which may be any number of conditions on the
/// label, on the weight and on properties, asks for the edges that meet every one of
/// them.
pub proof fn law_edge_query_means_its_conditions(cs: Seq<Clause>)
    requires
        cs.len() > 0,
        forall|i: int| 0 <= i < cs.len() ==> (#[trigger] cs[i]).writable(),
    ensures
        SimpleQueryLanguage.command(spaced(match_words("EDGE"@, cs))) matches Ok(
            CommandView::MatchEdges(f),
        ) && forall|e: EdgeView| #[trigger]
            f.accepts(e) <==> forall|i: int|
                0 <= i < cs.len() ==> (#[trigger] cs[i]).met_by_edge(e),
{
    lemma_match_commands(cs);
    let f = edge_filter(any_edge(), cs, 0);
    assert forall|e: EdgeView| #[trigger] f.accepts(e) <==> forall|i: int|
        0 <= i < cs.len() ==> (#[trigger] cs[i]).met_by_edge(e) by {
        lemma_edge_filter(any_edge(), cs, 0, e);
    }
}

// ---------------------------------------------------------------- other commands

proof fn lemma_plain_words(ws: Seq<Seq<char>>)
    requires
        forall|i: int| 0 <= i < ws.len() ==> (#[trigger] ws[i]).len() > 0 && is_plain_text(ws[i]),
    ensures
        query_words(spaced(ws)).len() == ws.len(),
        forall|i: int| 0 <= i < ws.len() ==> (#[trigger] query_words(spaced(ws))[i]).text == ws[i],
        forall|i: int|
            0 <= i < ws.len() ==> (#[trigger] query_words(spaced(ws))[i]).upper == upper(ws[i]),
{
    law_spaced_words_read_back(ws);
}

/// The command that words make up, as far as the simple language reads them.
#[verifier::opaque]
spec fn command_in(text: Seq<char>) -> Result<CommandView, Seq<char>> {
    command_of(query_words(text))
}

proof fn lemma_command_in(text: Seq<char>)
    ensures
        command_in(text) == command_of(query_words(text)),
        command_in(text) matches Ok(c) ==> SimpleQueryLanguage.command(text) == Ok::<
            CommandView,
            GraphErrorView,
        >(c),
{
    reveal(command_in);
}

/// Whether words are read with the given texts and upper cases.
spec fn reads_two(q: Seq<WordView>, a: Seq<char>, b: Seq<char>) -> bool {
    q.len() >= 2 && q[0].upper == a && q[1].upper == b
}

proof fn lemma_match_all(q: Seq<WordView>, what: Seq<char>)
    requires
        q.len() == 2,
        reads_two(q, "MATCH"@, what),
    ensures
        what == "NODE"@ ==> command_of(q) == Ok::<CommandView, Seq<char>>(
            CommandView::MatchNodes(any_node()),
        ),
        what == "EDGE"@ ==> command_of(q) == Ok::<CommandView, Seq<char>>(
            CommandView::MatchEdges(any_edge()),
        ),
{
    reveal_strlit("NODE");
    reveal_strlit("EDGE");
    assert("NODE"@[0] != "EDGE"@[0]);
}

#[verifier::rlimit(50)]
proof fn lemma_get_one(q: Seq<WordView>, what: Seq<char>, node: NodeId, edge: EdgeId)
    requires
        q.len() == 3,
        reads_two(q, "GET"@, what),
    ensures
        what == "NODE"@ && q[2].text == node.text() ==> command_of(q) == Ok::<
            CommandView,
            Seq<char>,
        >(CommandView::GetNode(node)),
        what == "EDGE"@ && q[2].text == edge.text() ==> command_of(q) == Ok::<
            CommandView,
            Seq<char>,
        >(CommandView::GetEdge(edge)),
{
    reveal_strlit("MATCH");
    reveal_strlit("GET");
    reveal_strlit("NODE");
    reveal_strlit("EDGE");
    assert("NODE"@[0] != "EDGE"@[0]);
    assert("GET"@[0] != "MATCH"@[0]);
    law_identifiers_read_back(node, edge);
}

#[verifier::rlimit(50)]
proof fn lemma_count_all(q: Seq<WordView>, what: Seq<char>)
    requires
        q.len() == 2,
        reads_two(q, "COUNT"@, what),
    ensures
        what == "NODES"@ ==> command_of(q) == Ok::<CommandView, Seq<char>>(CommandView::CountNodes),
        what == "EDGES"@ ==> command_of(q) == Ok::<CommandView, Seq<char>>(CommandView::CountEdges),
{
    reveal_strlit("MATCH");
    reveal_strlit("GET");
    reveal_strlit("TRAVERSE");
    reveal_strlit("PATH");
    reveal_strlit("COUNT");
    reveal_strlit("NODES");
    reveal_strlit("EDGES");
    assert("NODES"@[0] != "EDGES"@[0]);
    assert("COUNT"@[0] == 'C' && "MATCH"@[0] == 'M' && "GET"@[0] == 'G' && "TRAVERSE"@[0] == 'T'
        && "PATH"@[0] == 'P');
}

/// A query of two words is read as these two.
#[verifier::rlimit(50)]
proof fn lemma_two_words(a: Seq<char>, b: Seq<char>)
    requires
        a.len() > 0,
        is_plain_text(a),
        b.len() > 0,
        is_plain_text(b),
    ensures
        query_words(spaced(seq![a, b])).len() == 2,
        reads_two(query_words(spaced(seq![a, b])), upper(a), upper(b)),
{
    let ws = seq![a, b];
    lemma_plain_words(ws);
    let q = query_words(spaced(ws));
    assert(q[0].upper == upper(ws[0]));
    assert(q[1].upper == upper(ws[1]));
}

/// A query of three words is read as these three.
#[verifier::rlimit(50)]
proof fn lemma_three_words(a: Seq<char>, b: Seq<char>, c: Seq<char>)
    requires
        a.len() > 0,
        is_plain_text(a),
        b.len() > 0,
        is_plain_text(b),
        c.len() > 0,
        is_plain_text(c),
    ensures
        query_words(spaced(seq![a, b, c])).len() == 3,
        reads_two(query_words(spaced(seq![a, b, c])), upper(a), upper(b)),
        query_words(spaced(seq![a, b, c]))[2].text == c,
{
    let ws = seq![a, b, c];
    lemma_plain_words(ws);
    let q = query_words(spaced(ws));
    assert(q[0].upper == upper(ws[0]));
    assert(q[1].upper == upper(ws[1]));
    assert(q[2].text == ws[2]);
}

/// A query without conditions asks for all nodes or for all edges, with its keywords in
/// any case of letters.
pub proof fn law_query_without_conditions_asks_for_all(matching: Seq<char>, what: Seq<char>)
    requires
        same_word(matching, "MATCH"@),
    ensures
        same_word(what, "NODE"@) ==> (SimpleQueryLanguage.command(
            spaced(seq![matching, what]),
        ) matches Ok(CommandView::MatchNodes(f)) && forall|n: NodeView| #[trigger] f.accepts(n)),
        same_word(what, "EDGE"@) ==> (SimpleQueryLanguage.command(
            spaced(seq![matching, what]),
        ) matches Ok(CommandView::MatchEdges(f)) && forall|e: EdgeView| #[trigger] f.accepts(e)),
{
    lemma_keyword_letters();
    let text = spaced(seq![matching, what]);
    lemma_any_case(matching, "MATCH"@);
    lemma_command_in(text);
    if same_word(what, "NODE"@) {
        lemma_any_case(what, "NODE"@);
        lemma_two_words(matching, what);
        lemma_match_all(query_words(text), "NODE"@);
    }
    if same_word(what, "EDGE"@) {
        lemma_any_case(what, "EDGE"@);
        lemma_two_words(matching, what);
        lemma_match_all(query_words(text), "EDGE"@);
    }
}

proof fn lemma_keyword_letters()
    ensures
        forall|i: int| 0 <= i < "MATCH"@.len() ==> 'A' <= #[trigger] "MATCH"@[i] && "MATCH"@[i] <= 'Z',
        forall|i: int| 0 <= i < "GET"@.len() ==> 'A' <= #[trigger] "GET"@[i] && "GET"@[i] <= 'Z',
        forall|i: int| 0 <= i < "COUNT"@.len() ==> 'A' <= #[trigger] "COUNT"@[i] && "COUNT"@[i] <= 'Z',
        forall|i: int| 0 <= i < "NODE"@.len() ==> 'A' <= #[trigger] "NODE"@[i] && "NODE"@[i] <= 'Z',
        forall|i: int| 0 <= i < "EDGE"@.len() ==> 'A' <= #[trigger] "EDGE"@[i] && "EDGE"@[i] <= 'Z',
        forall|i: int| 0 <= i < "NODES"@.len() ==> 'A' <= #[trigger] "NODES"@[i] && "NODES"@[i] <= 'Z',
        forall|i: int| 0 <= i < "EDGES"@.len() ==> 'A' <= #[trigger] "EDGES"@[i] && "EDGES"@[i] <= 'Z',
        "MATCH"@.len() == 5,
        "GET"@.len() == 3,
        "COUNT"@.len() == 5,
        "NODE"@.len() == 4,
        "EDGE"@.len() == 4,
        "NODES"@.len() == 5,
        "EDGES"@.len() == 5,
{
    reveal_strlit("MATCH");
    reveal_strlit("GET");
    reveal_strlit("COUNT");
    reveal_strlit("NODE");
    reveal_strlit("EDGE");
    reveal_strlit("NODES");
    reveal_strlit("EDGES");
}

/// A keyword in any case of its letters.
#[verifier::rlimit(50)]
pub proof fn lemma_any_case(w: Seq<char>, kw: Seq<char>)
    requires
        same_word(w, kw),
        forall|i: int| 0 <= i < kw.len() ==> 'A' <= #[trigger] kw[i] && kw[i] <= 'Z',
    ensures
        upper(w) == kw,
        is_plain_text(w),
        w.len() == kw.len(),
{
    assert forall|i: int| 0 <= i < w.len() implies #[trigger] is_ascii_char(w[i]) && ascii_upper(
        w[i],
    ) == kw[i] && is_plain_char(w[i]) by {
        assert('A' <= kw[i] && kw[i] <= 'Z');
        assert(ascii_lower(w[i]) == ascii_lower(kw[i]));
        let c = w[i];
        let k = kw[i];
        assert(ascii_lower(k) as u32 == k as u32 + 32);
        if 'A' <= c && c <= 'Z' {
            assert(ascii_lower(c) as u32 == c as u32 + 32);
            assert(c as u32 == k as u32);
        } else {
            assert(c as u32 == k as u32 + 32);
            assert(ascii_upper(c) as u32 == c as u32 - 32);
        }
    }
    assert(is_ascii_text(w)) by {
        assert forall|i: int| 0 <= i < w.len() implies is_ascii_char(#[trigger] w[i]) by {
            assert(is_ascii_char(w[i]) && ascii_upper(w[i]) == kw[i]);
        }
    }
    assert forall|i: int| 0 <= i < w.len() implies is_plain_char(#[trigger] w[i]) by {
        assert(is_ascii_char(w[i]) && ascii_upper(w[i]) == kw[i]);
    }
    assert(upper(w) =~= kw) by {
        assert forall|i: int| 0 <= i < w.len() implies #[trigger] upper(w)[i] == kw[i] by {
            assert(is_ascii_char(w[i]) && ascii_upper(w[i]) == kw[i]);
        }
    }
}

/// A query for a node or an edge asks for the one with the identifier that is written,
/// with its keywords in any case of letters.
pub proof fn law_get_asks_for_the_identifier(
    get: Seq<char>,
    what: Seq<char>,
    node: NodeId,
    edge: EdgeId,
)
    requires
        same_word(get, "GET"@),
    ensures
        same_word(what, "NODE"@) ==> (SimpleQueryLanguage.command(
            spaced(seq![get, what, node.text()]),
        ) matches Ok(c) && c == CommandView::GetNode(node)),
        same_word(what, "EDGE"@) ==> (SimpleQueryLanguage.command(
            spaced(seq![get, what, edge.text()]),
        ) matches Ok(c) && c == CommandView::GetEdge(edge)),
{
    lemma_keyword_letters();
    lemma_any_case(get, "GET"@);
    lemma_identifier_word(node.0);
    lemma_identifier_word(edge.0);
    let x = spaced(seq![get, what, node.text()]);
    let y = spaced(seq![get, what, edge.text()]);
    lemma_command_in(x);
    lemma_command_in(y);
    if same_word(what, "NODE"@) {
        lemma_any_case(what, "NODE"@);
        lemma_three_words(get, what, node.text());
        lemma_get_one(query_words(x), "NODE"@, node, edge);
    }
    if same_word(what, "EDGE"@) {
        lemma_any_case(what, "EDGE"@);
        lemma_three_words(get, what, edge.text());
        lemma_get_one(query_words(y), "EDGE"@, node, edge);
    }
}

/// A count asks for the number of nodes or of edges, with its keywords in any case of
/// letters.
pub proof fn law_count_asks_for_a_number(count: Seq<char>, what: Seq<char>)
    requires
        same_word(count, "COUNT"@),
    ensures
        same_word(what, "NODES"@) ==> (SimpleQueryLanguage.command(
            spaced(seq![count, what]),
        ) matches Ok(c) && c == CommandView::CountNodes),
        same_word(what, "EDGES"@) ==> (SimpleQueryLanguage.command(
            spaced(seq![count, what]),
        ) matches Ok(c) && c == CommandView::CountEdges),
{
    lemma_keyword_letters();
    lemma_any_case(count, "COUNT"@);
    let text = spaced(seq![count, what]);
    lemma_command_in(text);
    if same_word(what, "NODES"@) {
        lemma_any_case(what, "NODES"@);
        lemma_two_words(count, what);
        lemma_count_all(query_words(text), "NODES"@);
    }
    if same_word(what, "EDGES"@) {
        lemma_any_case(what, "EDGES"@);
        lemma_two_words(count, what);
        lemma_count_all(query_words(text), "EDGES"@);
    }
}

proof fn lemma_identifier_word(n: u64)
    ensures
        NodeId(n).text().len() > 0,
        is_plain_text(NodeId(n).text()),
        EdgeId(n).text().len() > 0,
        is_plain_text(EdgeId(n).text()),
{
    reveal_strlit("N");
    reveal_strlit("E");
    lemma_numeral(n as nat);
    let d = decimal(n as nat);
    let s = NodeId(n).text();
    let t = EdgeId(n).text();
    assert forall|i: int| 0 <= i < s.len() implies is_plain_char(#[trigger] s[i]) by {
        if i > 0 {
            assert(s[i] == d[i - 1] && is_digit(d[i - 1]));
        }
    }
    assert forall|i: int| 0 <= i < t.len() implies is_plain_char(#[trigger] t[i]) by {
        if i > 0 {
            assert(t[i] == d[i - 1] && is_digit(d[i - 1]));
        }
    }
}

} // verus!
