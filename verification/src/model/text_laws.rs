//! What the texts of identifiers, edges, nodes and errors show.

use crate::float_text::is_digit;
use crate::model::edge::EdgeView;
use crate::model::edge_id::EdgeId;
use crate::model::error::GraphErrorView;
use crate::model::node::{node_text, properties_text, NodeView};
use crate::model::node_id::NodeId;
use crate::model::value::ValueView;
use crate::number_text::{law_integer_reads_back, lemma_numeral, signed_of_text};
use crate::text::decimal;
use vstd::prelude::*;

verus! {

/// Whether a text begins with another.
pub open spec fn begins_with(text: Seq<char>, part: Seq<char>) -> bool {
    part.len() <= text.len() && text.take(part.len() as int) == part
}

/// Whether a text ends with another.
pub open spec fn ends_with(text: Seq<char>, part: Seq<char>) -> bool {
    part.len() <= text.len() && text.skip(text.len() - part.len()) == part
}

/// Whether a text stands somewhere in another.
pub open spec fn shows(text: Seq<char>, part: Seq<char>) -> bool {
    exists|k: int|
        0 <= k && k + part.len() <= text.len() && #[trigger] text.subrange(k, k + part.len())
            == part
}

/// A text shows each of the parts that it is put together from.
pub proof fn lemma_shows(before: Seq<char>, part: Seq<char>, after: Seq<char>)
    ensures
        shows(before + part + after, part),
{
    let t = before + part + after;
    let k: int = before.len() as int;
    assert(t.subrange(k, k + part.len()) =~= part);
}

/// What a part of a text shows, the text shows.
pub proof fn lemma_shows_within(before: Seq<char>, s: Seq<char>, after: Seq<char>, part: Seq<char>)
    requires
        shows(s, part),
    ensures
        shows(before + s + after, part),
{
    let t = before + s + after;
    let k = choose|k: int|
        0 <= k && k + part.len() <= s.len() && #[trigger] s.subrange(k, k + part.len()) == part;
    let j = before.len() + k;
    assert(t.subrange(j, j + part.len()) =~= s.subrange(k, k + part.len()));
}

/// Texts that are equal are equal up to the first place of a character, and behind it.
pub proof fn lemma_first_place(x: Seq<char>, a: Seq<char>, y: Seq<char>, b: Seq<char>, c: char)
    requires
        x + seq![c] + a == y + seq![c] + b,
        !x.contains(c),
        !y.contains(c),
    ensures
        x == y,
        a == b,
{
    let s = x + seq![c] + a;
    let t = y + seq![c] + b;
    assert(s[x.len() as int] == c && t[y.len() as int] == c);
    if x.len() < y.len() {
        assert(y[x.len() as int] == t[x.len() as int]);
        assert(y.contains(c));
    }
    if y.len() < x.len() {
        assert(x[y.len() as int] == s[y.len() as int]);
        assert(x.contains(c));
    }
    assert(x =~= s.take(x.len() as int));
    assert(y =~= t.take(y.len() as int));
    assert(a =~= s.skip((x.len() + 1) as int));
    assert(b =~= t.skip((y.len() + 1) as int));
}

/// Texts that are equal are equal from the last place of a character, and before it.
pub proof fn lemma_last_place(x: Seq<char>, a: Seq<char>, y: Seq<char>, b: Seq<char>, c: char)
    requires
        x + seq![c] + a == y + seq![c] + b,
        !a.contains(c),
        !b.contains(c),
    ensures
        x == y,
        a == b,
{
    let s = x + seq![c] + a;
    let t = y + seq![c] + b;
    assert(s == t);
    assert(s.len() == x.len() + 1 + a.len());
    assert(t.len() == y.len() + 1 + b.len());
    assert(s[x.len() as int] == c && t[y.len() as int] == c);
    if x.len() < y.len() {
        let i = y.len() - x.len() - 1;
        assert(a[i] == s[y.len() as int]);
        assert(a.contains(c));
    }
    if y.len() < x.len() {
        let i = x.len() - y.len() - 1;
        assert(b[i] == t[x.len() as int]);
        assert(b.contains(c));
    }
    assert(x =~= s.take(x.len() as int));
    assert(y =~= t.take(y.len() as int));
    assert(a =~= s.skip((x.len() + 1) as int));
    assert(b =~= t.skip((y.len() + 1) as int));
}

proof fn lemma_identifier_plain(n: u64, c: char)
    requires
        !is_digit(c),
        c != 'N',
        c != 'E',
    ensures
        !NodeId(n).text().contains(c),
        !EdgeId(n).text().contains(c),
{
    reveal_strlit("N");
    reveal_strlit("E");
    lemma_numeral(n as nat);
    let d = decimal(n as nat);
    assert forall|i: int| 0 <= i < NodeId(n).text().len() implies NodeId(n).text()[i] != c by {
        if i > 0 {
            assert(is_digit(d[i - 1]));
        }
    }
    assert forall|i: int| 0 <= i < EdgeId(n).text().len() implies EdgeId(n).text()[i] != c by {
        if i > 0 {
            assert(is_digit(d[i - 1]));
        }
    }
}

/// The text of an identifier tells it from every other, nodes from edges too.
pub proof fn law_identifier_texts_differ(a: u64, b: u64)
    ensures
        NodeId(a).text() == NodeId(b).text() ==> a == b,
        EdgeId(a).text() == EdgeId(b).text() ==> a == b,
        NodeId(a).text() != EdgeId(b).text(),
        NodeId(a).text()[0] == 'N',
        EdgeId(a).text()[0] == 'E',
{
    reveal_strlit("N");
    reveal_strlit("E");
    lemma_numeral(a as nat);
    lemma_numeral(b as nat);
    assert(NodeId(a).text().skip(1) =~= decimal(a as nat));
    assert(NodeId(b).text().skip(1) =~= decimal(b as nat));
    assert(EdgeId(a).text().skip(1) =~= decimal(a as nat));
    assert(EdgeId(b).text().skip(1) =~= decimal(b as nat));
    assert(NodeId(a).text()[0] != EdgeId(b).text()[0]);
}

/// The text of an edge begins with the node that it leaves and ends with the node
/// that it enters, and shows its identifier and its label between them.
#[verifier::rlimit(50)]
pub proof fn law_edge_text_shows_direction(e: EdgeView)
    ensures
        begins_with(e.text(), "("@ + e.source.text() + ")"@),
        ends_with(e.text(), "-> ("@ + e.target.text() + ")"@),
        shows(e.text(), "["@ + e.id.text() + " :"@ + e.label + "]"@),
{
    reveal_strlit("(");
    reveal_strlit(")");
    reveal_strlit(") -[");
    reveal_strlit(" :");
    reveal_strlit("[");
    reveal_strlit("]");
    reveal_strlit("-> (");
    reveal_strlit("]-> (");
    let t = e.text();
    let head = "("@ + e.source.text() + ")"@;
    assert(t.take(head.len() as int) =~= head);
    let tail = "-> ("@ + e.target.text() + ")"@;
    assert(t.skip(t.len() - tail.len()) =~= tail);
    let middle = "["@ + e.id.text() + " :"@ + e.label + "]"@;
    let before = "("@ + e.source.text() + seq![')', ' ', '-'];
    assert(t =~= before + middle + tail);
    lemma_shows(before, middle, tail);
}

/// The label of an edge with what stands round it in the text.
spec fn label_part(e: EdgeView) -> Seq<char> {
    seq![':'] + e.label + seq![']', '-', '>', ' ']
}

/// What stands in the text of an edge behind its identifier.
spec fn after_id(e: EdgeView) -> Seq<char> {
    label_part(e) + seq!['('] + (e.target.text() + seq![')'])
}

/// What stands in the text of an edge behind the node that it leaves.
spec fn after_source(e: EdgeView) -> Seq<char> {
    seq![' ', '-', '['] + (e.id.text() + seq![' '] + after_id(e))
}

#[verifier::rlimit(50)]
proof fn lemma_edge_parts(e: EdgeView)
    ensures
        e.text() == (seq!['('] + e.source.text()) + seq![')'] + after_source(e),
        !(seq!['('] + e.source.text()).contains(')'),
        !e.id.text().contains(' '),
        !(e.target.text() + seq![')']).contains('('),
        after_source(e).skip(3) == e.id.text() + seq![' '] + after_id(e),
        (seq!['('] + e.source.text()).skip(1) == e.source.text(),
        (e.target.text() + seq![')']).drop_last() == e.target.text(),
        label_part(e).subrange(1, label_part(e).len() - 4) == e.label,
{
    reveal_strlit("(");
    reveal_strlit(")");
    reveal_strlit(") -[");
    reveal_strlit(" :");
    reveal_strlit("]-> (");
    lemma_identifier_plain(e.source.0, ')');
    lemma_identifier_plain(e.id.0, ' ');
    lemma_identifier_plain(e.target.0, '(');
    let s = seq!['('] + e.source.text();
    assert forall|i: int| 0 <= i < s.len() implies s[i] != ')' by {
        if i > 0 {
            assert(s[i] == e.source.text()[i - 1]);
        }
    }
    let t = e.target.text() + seq![')'];
    assert forall|i: int| 0 <= i < t.len() implies t[i] != '(' by {
        if i < e.target.text().len() {
            assert(t[i] == e.target.text()[i]);
        }
    }
    assert(e.text() =~= s + seq![')'] + after_source(e));
    assert(after_source(e).skip(3) =~= e.id.text() + seq![' '] + after_id(e));
    assert(s.skip(1) =~= e.source.text());
    assert(t.drop_last() =~= e.target.text());
    assert(label_part(e).subrange(1, label_part(e).len() - 4) =~= e.label);
}

/// Edges with the same text have the same ends, identifier and label; so an edge and
/// the edge in the other direction have different texts.
pub proof fn law_edge_texts_differ(a: EdgeView, b: EdgeView)
    requires
        a.text() == b.text(),
    ensures
        a.source == b.source,
        a.target == b.target,
        a.id == b.id,
        a.label == b.label,
{
    lemma_edge_parts(a);
    lemma_edge_parts(b);
    lemma_first_place(
        seq!['('] + a.source.text(),
        after_source(a),
        seq!['('] + b.source.text(),
        after_source(b),
        ')',
    );
    lemma_first_place(a.id.text(), after_id(a), b.id.text(), after_id(b), ' ');
    lemma_last_place(
        label_part(a),
        a.target.text() + seq![')'],
        label_part(b),
        b.target.text() + seq![')'],
        '(',
    );
    law_identifier_texts_differ(a.source.0, b.source.0);
    law_identifier_texts_differ(a.id.0, b.id.0);
    law_identifier_texts_differ(a.target.0, b.target.0);
}

proof fn lemma_property_shown(entries: Seq<(Seq<char>, ValueView)>, i: int)
    requires
        0 <= i < entries.len(),
    ensures
        shows(properties_text(entries), entries[i].0 + ": "@ + entries[i].1.text()),
    decreases entries.len(),
{
    let before = entries.drop_last();
    let part = entries[i].0 + ": "@ + entries[i].1.text();
    let t = properties_text(entries);
    if i == entries.len() - 1 {
        let head = properties_text(before) + (if before.len() > 0 {
            ", "@
        } else {
            Seq::empty()
        });
        assert(t =~= head + part + Seq::empty());
        lemma_shows(head, part, Seq::empty());
    } else {
        lemma_property_shown(before, i);
        let s = properties_text(before);
        let tail = t.skip(s.len() as int);
        assert(t =~= Seq::<char>::empty() + s + tail);
        lemma_shows_within(Seq::empty(), s, tail, part);
    }
}

/// The text of a node begins with its identifier and its label, and shows the name
/// and the value of each of its properties.
#[verifier::rlimit(50)]
pub proof fn law_node_text_shows_node(n: NodeView, entries: Seq<(Seq<char>, ValueView)>)
    ensures
        begins_with(node_text(n, entries), "("@ + n.id.text() + " :"@ + n.label + ")"@),
        forall|i: int|
            0 <= i < entries.len() ==> shows(
                node_text(n, entries),
                (#[trigger] entries[i]).0 + ": "@ + entries[i].1.text(),
            ),
        entries.len() > 0 ==> ends_with(node_text(n, entries), "}"@),
        entries.len() == 0 ==> ends_with(node_text(n, entries), ")"@),
{
    reveal_strlit("(");
    reveal_strlit(")");
    reveal_strlit(" :");
    reveal_strlit(" {");
    reveal_strlit("}");
    let t = node_text(n, entries);
    let head = "("@ + n.id.text() + " :"@ + n.label + ")"@;
    assert(t.take(head.len() as int) =~= head);
    if entries.len() == 0 {
        assert(t =~= head);
        assert(t.skip(t.len() - 1) =~= ")"@);
    } else {
        assert(t.skip(t.len() - 1) =~= "}"@);
    }
    assert forall|i: int| 0 <= i < entries.len() implies shows(
        t,
        (#[trigger] entries[i]).0 + ": "@ + entries[i].1.text(),
    ) by {
        lemma_property_shown(entries, i);
        let s = properties_text(entries);
        assert(t =~= (head + " {"@) + s + "}"@);
        lemma_shows_within(head + " {"@, s, "}"@, entries[i].0 + ": "@ + entries[i].1.text());
    }
}

/// The nodes that texts begin with have the same identifier: the text of a node tells
/// it from every other node.
pub proof fn law_node_texts_differ(
    a: NodeView,
    b: NodeView,
    x: Seq<(Seq<char>, ValueView)>,
    y: Seq<(Seq<char>, ValueView)>,
)
    requires
        node_text(a, x) == node_text(b, y),
    ensures
        a.id == b.id,
{
    reveal_strlit("(");
    reveal_strlit(" :");
    let s = node_text(a, x);
    let t = node_text(b, y);
    let p = "("@ + a.id.text();
    let q = "("@ + b.id.text();
    lemma_identifier_plain(a.id.0, ' ');
    lemma_identifier_plain(b.id.0, ' ');
    assert(!p.contains(' '));
    assert(!q.contains(' '));
    let u = s.skip((p.len() + 1) as int);
    let v = t.skip((q.len() + 1) as int);
    assert(s =~= p + seq![' '] + u);
    assert(t =~= q + seq![' '] + v);
    lemma_first_place(p, u, q, v, ' ');
    assert(p.skip(1) =~= a.id.text());
    assert(q.skip(1) =~= b.id.text());
    law_identifier_texts_differ(a.id.0, b.id.0);
}

/// The message of an error names the node or the edge, and whether it is missing or
/// there already; any other message ends with its cause.
#[verifier::rlimit(50)]
pub proof fn law_error_messages_name_the_cause(n: NodeId, e: EdgeId, m: Seq<char>)
    ensures
        begins_with(GraphErrorView::NodeNotFound(n).message(), "node "@ + n.text()),
        ends_with(GraphErrorView::NodeNotFound(n).message(), "not found"@),
        begins_with(GraphErrorView::EdgeNotFound(e).message(), "edge "@ + e.text()),
        ends_with(GraphErrorView::EdgeNotFound(e).message(), "not found"@),
        begins_with(GraphErrorView::DuplicateNode(n).message(), "node "@ + n.text()),
        ends_with(GraphErrorView::DuplicateNode(n).message(), "already exists"@),
        begins_with(GraphErrorView::DuplicateEdge(e).message(), "edge "@ + e.text()),
        ends_with(GraphErrorView::DuplicateEdge(e).message(), "already exists"@),
        begins_with(GraphErrorView::StorageIo(m).message(), "storage"@),
        ends_with(GraphErrorView::StorageIo(m).message(), m),
        begins_with(GraphErrorView::SerializationError(m).message(), "serialization"@),
        ends_with(GraphErrorView::SerializationError(m).message(), m),
        begins_with(GraphErrorView::DeserializationError(m).message(), "deserialization"@),
        ends_with(GraphErrorView::DeserializationError(m).message(), m),
{
    reveal_strlit("node ");
    reveal_strlit("edge ");
    reveal_strlit(" not found");
    reveal_strlit("not found");
    reveal_strlit(" already exists");
    reveal_strlit("already exists");
    reveal_strlit("storage I/O error: ");
    reveal_strlit("storage");
    reveal_strlit("serialization error: ");
    reveal_strlit("serialization");
    reveal_strlit("deserialization error: ");
    reveal_strlit("deserialization");
    assert(" not found"@ =~= seq![' '] + "not found"@);
    assert(" already exists"@ =~= seq![' '] + "already exists"@);
    lemma_parts("node "@ + n.text(), " not found"@, "not found"@);
    lemma_parts("edge "@ + e.text(), " not found"@, "not found"@);
    lemma_parts("node "@ + n.text(), " already exists"@, "already exists"@);
    lemma_parts("edge "@ + e.text(), " already exists"@, "already exists"@);
    let s = GraphErrorView::StorageIo(m).message();
    assert(s.take(7) =~= "storage"@);
    assert(s.skip(s.len() - m.len()) =~= m);
    let s = GraphErrorView::SerializationError(m).message();
    assert(s.take(13) =~= "serialization"@);
    assert(s.skip(s.len() - m.len()) =~= m);
    let s = GraphErrorView::DeserializationError(m).message();
    assert(s.take(15) =~= "deserialization"@);
    assert(s.skip(s.len() - m.len()) =~= m);
}

proof fn lemma_parts(head: Seq<char>, tail: Seq<char>, end: Seq<char>)
    requires
        tail == seq![' '] + end,
    ensures
        begins_with(head + tail, head),
        ends_with(head + tail, end),
{
    let s = head + tail;
    assert(s.take(head.len() as int) =~= head);
    assert(s.skip(s.len() - end.len()) =~= end);
}

/// A text is shown in double quotes, an integer by its digits with a minus where it is
/// below zero, and the other values by their words; values of these kinds that are shown
/// alike are the same.
pub proof fn law_value_texts(a: ValueView, b: ValueView, t: Seq<char>, i: i64)
    ensures
        ValueView::Text(t).text() == seq!['"'] + t + seq!['"'],
        ValueView::Boolean(true).text() == seq!['t', 'r', 'u', 'e'],
        ValueView::Boolean(false).text() == seq!['f', 'a', 'l', 's', 'e'],
        ValueView::Null.text() == seq!['n', 'u', 'l', 'l'],
        signed_of_text(ValueView::Integer(i).text()) == Some(i),
        ValueView::Integer(i).text()[0] == '-' <==> i < 0,
        !(a is Float) && !(b is Float) && a.text() == b.text() ==> a == b,
{
    reveal_strlit("true");
    reveal_strlit("false");
    reveal_strlit("null");
    reveal_strlit("\"");
    reveal_strlit("-");
    assert(ValueView::Boolean(true).text() =~= seq!['t', 'r', 'u', 'e']);
    assert(ValueView::Boolean(false).text() =~= seq!['f', 'a', 'l', 's', 'e']);
    assert(ValueView::Null.text() =~= seq!['n', 'u', 'l', 'l']);
    assert(ValueView::Text(t).text() =~= seq!['"'] + t + seq!['"']);
    law_integer_reads_back(i);
    lemma_integer_start(i);
    if !(a is Float) && !(b is Float) && a.text() == b.text() {
        lemma_value_start(a);
        lemma_value_start(b);
        match (a, b) {
            (ValueView::Integer(x), ValueView::Integer(y)) => {
                law_integer_reads_back(x);
                law_integer_reads_back(y);
            },
            (ValueView::Text(x), ValueView::Text(y)) => {
                assert(a.text().subrange(1, a.text().len() - 1) =~= x);
                assert(b.text().subrange(1, b.text().len() - 1) =~= y);
            },
            _ => {},
        }
    }
}

proof fn lemma_integer_start(i: i64)
    ensures
        ValueView::Integer(i).text().len() > 0,
        ValueView::Integer(i).text()[0] == '-' <==> i < 0,
        ValueView::Integer(i).text()[0] == '-' || is_digit(ValueView::Integer(i).text()[0]),
{
    reveal_strlit("-");
    if i < 0 {
        lemma_numeral((-i) as nat);
    } else {
        lemma_numeral(i as nat);
        assert(is_digit(decimal(i as nat)[0]));
    }
}

/// The first character of a value's text tells its kind, but for numbers.
proof fn lemma_value_start(v: ValueView)
    requires
        !(v is Float),
    ensures
        v.text().len() > 0,
        v is Text <==> v.text()[0] == '"',
        v is Null <==> v.text()[0] == 'n',
        v == ValueView::Boolean(true) <==> v.text()[0] == 't',
        v == ValueView::Boolean(false) <==> v.text()[0] == 'f',
{
    reveal_strlit("true");
    reveal_strlit("false");
    reveal_strlit("null");
    reveal_strlit("\"");
    if let ValueView::Integer(i) = v {
        lemma_integer_start(i);
    }
}

} // verus!
