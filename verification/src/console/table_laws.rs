//! What the tables of the console show, and that a client shows what a server sent.

use crate::console::arguments::{open_options, option_or, size_or};
use crate::console::commands::without_prefix;
use crate::console::display::shown;
use crate::console::embedded::{
    field_lines, first_labels, label_row, label_rows, label_table, plan_text, query_text, schema_row,
    schema_rows, schema_text, SCHEMA_LABELS,
};
use crate::console::remote::{body_of, ends_answer, joined, wire_text};
use crate::database::layered::schema::LabelCount;
use crate::database::layered::LayeredGraphDatabase;
use crate::layout::{after, begins, left_aligned, repeated, right_aligned};
use crate::layout_laws::{is_blank, is_trim, law_trimmed_is_trim, law_trimming_leaves_the_middle};
use crate::model::error::GraphErrorView;
use crate::model::text_laws::{begins_with, ends_with, lemma_shows, lemma_shows_within, shows};
use crate::number_text::law_number_reads_back;
use crate::ports::cache::CachePort;
use crate::ports::engine::GraphEnginePort;
use crate::ports::storage::StoragePort;
use crate::query::languages::cypher_lite::CypherLiteLanguage;
use crate::query::languages::simple::SimpleQueryLanguage;
use crate::query::planner::plan_of;
use crate::query::port::QueryLanguagePort;
use crate::query::result::QueryResult;
use crate::server::{end_mark, outcome_text, prefixed, Lang};
use crate::server_laws::{language_prefix, law_prefix_chooses_language};
use crate::text::decimal;
use vstd::prelude::*;

verus! {

#[verifier::rlimit(50)]
proof fn lemma_label_row_shown(s: Seq<LabelCount>, i: int)
    requires
        0 <= i < s.len(),
    ensures
        shows(label_rows(s), label_row(s[i])),
        shows(schema_rows(s), schema_row(s[i])),
    decreases s.len(),
{
    let rest = s.drop_last();
    let e = Seq::<char>::empty();
    if i == s.len() - 1 {
        lemma_shows(label_rows(rest), label_row(s[i]), e);
        assert(label_rows(s) =~= label_rows(rest) + label_row(s[i]) + e);
        lemma_shows(schema_rows(rest), schema_row(s[i]), e);
        assert(schema_rows(s) =~= schema_rows(rest) + schema_row(s[i]) + e);
    } else {
        lemma_label_row_shown(rest, i);
        assert(rest[i] == s[i]);
        lemma_shows_within(e, label_rows(rest), label_row(s.last()), label_row(s[i]));
        assert(label_rows(s) =~= e + label_rows(rest) + label_row(s.last()));
        lemma_shows_within(e, schema_rows(rest), schema_row(s.last()), schema_row(s[i]));
        assert(schema_rows(s) =~= e + schema_rows(rest) + schema_row(s.last()));
    }
}

/// The table of labels has a row for each label, with its name and its number of nodes.
#[verifier::rlimit(50)]
pub proof fn law_label_table_shows_each_label(s: Seq<LabelCount>, i: int)
    requires
        0 <= i < s.len(),
    ensures
        shows(
            label_table(s),
            left_aligned(s[i].label@, 30) + "  "@ + right_aligned(
                decimal(s[i].count as nat),
                10,
            ) + "\n"@,
        ),
{
    let part = left_aligned(s[i].label@, 30) + "  "@ + right_aligned(decimal(s[i].count as nat), 10)
        + "\n"@;
    let e = Seq::<char>::empty();
    assert(label_row(s[i]) =~= "  "@ + part + e);
    lemma_shows("  "@, part, e);
    lemma_label_row_shown(s, i);
    lemma_shows_again(label_rows(s), label_row(s[i]), part);
    let head = "  "@ + left_aligned("Label"@, 30) + "  "@ + right_aligned("Count"@, 10) + "\n  "@
        + repeated('-', 43) + "\n"@;
    lemma_shows_within(head, label_rows(s), e, part);
    assert(label_table(s) =~= head + label_rows(s) + e);
}

/// What a part of a text shows is shown by the text.
proof fn lemma_shows_again(t: Seq<char>, s: Seq<char>, part: Seq<char>)
    requires
        shows(t, s),
        shows(s, part),
    ensures
        shows(t, part),
{
    let k = choose|k: int|
        0 <= k && k + s.len() <= t.len() && #[trigger] t.subrange(k, k + s.len()) == s;
    let a = t.take(k);
    let b = t.skip(k + s.len());
    assert(t =~= a + s + b) by {
        assert(forall|x: int|
            0 <= x < s.len() ==> #[trigger] s[x] == t.subrange(k, k + s.len())[x]);
    }
    lemma_shows_within(a, s, b, part);
}

proof fn lemma_line_apart(a: Seq<char>, b: Seq<char>, c: Seq<char>, d: Seq<char>)
    ensures
        a + b + c + d == a + (b + c + d),
        a + (b + c + d) == a + (b + c + d) + Seq::<char>::empty(),
        a + (b + c + d) == Seq::<char>::empty() + a + (b + c + d),
{
    assert(a + b + c + d =~= a + (b + c + d));
    assert(a + (b + c + d) =~= a + (b + c + d) + Seq::<char>::empty());
    assert(a + (b + c + d) =~= Seq::<char>::empty() + a + (b + c + d));
}

/// Each property has a line of its own.
#[verifier::rlimit(50)]
pub proof fn lemma_field_shown(s: Seq<Seq<char>>, i: int)
    requires
        0 <= i < s.len(),
    ensures
        shows(field_lines(s), "    "@ + s[i] + "\n"@),
    decreases s.len(),
{
    let rest = s.drop_last();
    let e = Seq::<char>::empty();
    let part = "    "@ + s[i] + "\n"@;
    if i == s.len() - 1 {
        lemma_shows(field_lines(rest), part, e);
        lemma_line_apart(field_lines(rest), "    "@, s[i], "\n"@);
    } else {
        lemma_field_shown(rest, i);
        assert(rest[i] == s[i]);
        let line = "    "@ + s.last() + "\n"@;
        lemma_shows_within(e, field_lines(rest), line, part);
        lemma_line_apart(field_lines(rest), "    "@, s.last(), "\n"@);
    }
}

/// The schema begins with the numbers of nodes and edges, has a row for each of the first
/// labels and a line for each indexed property, and ends with the size of the log.
#[verifier::rlimit(50)]
pub proof fn law_schema_shows_the_database(
    nodes: nat,
    edges: nat,
    labels: Seq<LabelCount>,
    fields: Seq<Seq<char>>,
    size: u64,
    i: int,
)
    ensures
        ({
            let t = schema_text(nodes, edges, labels, fields, size);
            &&& begins_with(t, "  Nodes: "@ + decimal(nodes) + "  |  Edges: "@ + decimal(edges))
            &&& ends_with(t, "WAL size: "@ + decimal(size as nat) + " bytes\n"@)
            &&& shows(t, "Labels ("@ + decimal(labels.len()) + "):\n"@)
            &&& shows(t, "fields ("@ + decimal(fields.len()) + "):\n"@)
            &&& 0 <= i < labels.len() && i < SCHEMA_LABELS ==> shows(t, schema_row(labels[i]))
            &&& 0 <= i < fields.len() ==> shows(t, "    "@ + fields[i] + "\n"@)
        }),
{
    reveal_strlit("\n\n  Labels (");
    reveal_strlit("Labels (");
    reveal_strlit("\n  Indexed property fields (");
    reveal_strlit("fields (");
    reveal_strlit("\n  WAL size: ");
    reveal_strlit("WAL size: ");
    let t = schema_text(nodes, edges, labels, fields, size);
    let e = Seq::<char>::empty();
    let some = first_labels(labels, SCHEMA_LABELS as nat);
    let a = "  Nodes: "@ + decimal(nodes) + "  |  Edges: "@ + decimal(edges);
    let b = a + "\n\n  Labels ("@ + decimal(labels.len()) + "):\n"@;
    let c = b + schema_rows(some);
    let d = c + "\n  Indexed property fields ("@ + decimal(fields.len()) + "):\n"@;
    let f = d + field_lines(fields);
    let z = "\n  WAL size: "@ + decimal(size as nat) + " bytes\n"@;
    assert(t =~= f + z);
    assert(t.take(a.len() as int) =~= a);
    let tail = "WAL size: "@ + decimal(size as nat) + " bytes\n"@;
    assert(t.skip(t.len() - tail.len()) =~= tail);
    let p = "Labels ("@ + decimal(labels.len()) + "):\n"@;
    assert(b =~= (a + seq!['\n', '\n', ' ', ' ']) + p + e);
    lemma_shows(a + seq!['\n', '\n', ' ', ' '], p, e);
    lemma_part_of(t, b, p);
    let q = "fields ("@ + decimal(fields.len()) + "):\n"@;
    let lead = "\n  Indexed property fields ("@;
    assert(lead =~= lead.take(lead.len() - 8) + "fields ("@);
    let before = c + lead.take(lead.len() - 8);
    assert(d =~= before + q + e);
    lemma_shows(before, q, e);
    lemma_part_of(t, d, q);
    if 0 <= i < labels.len() && i < SCHEMA_LABELS {
        assert(some[i] == labels[i]);
        lemma_label_row_shown(some, i);
        lemma_shows_within(b, schema_rows(some), e, schema_row(labels[i]));
        assert(c =~= b + schema_rows(some) + e);
        lemma_part_of(t, c, schema_row(labels[i]));
    }
    if 0 <= i < fields.len() {
        lemma_field_shown(fields, i);
        let line = "    "@ + fields[i] + "\n"@;
        lemma_shows_within(d, field_lines(fields), e, line);
        assert(f =~= d + field_lines(fields) + e);
        lemma_part_of(t, f, line);
    }
}

/// What the beginning of a text shows, the text shows.
pub proof fn lemma_part_of(t: Seq<char>, head: Seq<char>, part: Seq<char>)
    requires
        head.len() <= t.len(),
        t.take(head.len() as int) =~= head,
        shows(head, part),
    ensures
        shows(t, part),
{
    let e = Seq::<char>::empty();
    let behind = t.skip(head.len() as int);
    assert(t =~= e + head + behind) by {
        assert(forall|x: int|
            0 <= x < head.len() ==> #[trigger] head[x] == t.take(head.len() as int)[x]);
    }
    lemma_shows_within(e, head, behind, part);
}

/// Lines that come one after the other are put together with a line break between each
/// two, in their order.
pub proof fn law_lines_join_in_order(a: Seq<Seq<char>>, b: Seq<Seq<char>>, line: Seq<char>)
    ensures
        joined(seq![line]) == line,
        a.len() > 0 && b.len() > 0 ==> joined(a + b) == joined(a) + "\n"@ + joined(b),
    decreases b.len(),
{
    if a.len() > 0 && b.len() > 0 {
        let all = a + b;
        let rest = b.drop_last();
        assert(all.drop_last() =~= a + rest);
        assert(all.last() == b.last());
        if rest.len() == 0 {
            assert(a + rest =~= a);
            assert(joined(b) == b[0]);
        } else {
            law_lines_join_in_order(a, rest, line);
            assert(joined(a) + "\n"@ + joined(rest) + "\n"@ + b.last() =~= joined(a) + "\n"@ + (
            joined(rest) + "\n"@ + b.last()));
        }
    }
}

/// A client shows of an answer what the server told: the text of the result, or the
/// message of the error.
pub proof fn law_client_shows_what_was_told(r: QueryResult, e: GraphErrorView)
    ensures
        body_of(outcome_text(Ok(r))) == r.text(),
        body_of(outcome_text(Err(e))) == e.message(),
{
    reveal_strlit("OK\n");
    reveal_strlit("ERR\n");
    lemma_result_start(r);
    lemma_message_start(e);
    lemma_stripped("OK\n"@, r.text());
    lemma_not_begun("ERR\n"@, r.text());
    reveal_with_fuel(without_prefix, 2);
    assert(without_prefix(r.text(), "ERR\n"@) == r.text());
    let t = outcome_text(Err(e));
    assert(t[0] == 'E');
    lemma_not_begun("OK\n"@, t);
    lemma_stripped("ERR\n"@, e.message());
}

proof fn lemma_not_begun(prefix: Seq<char>, t: Seq<char>)
    requires
        prefix.len() >= 2,
        t.len() < 2 || t[0] != prefix[0] || t[1] != prefix[1],
    ensures
        !begins(t, prefix),
{
    if begins(t, prefix) {
        assert(t.take(prefix.len() as int)[0] == t[0]);
        assert(t.take(prefix.len() as int)[1] == t[1]);
    }
}

proof fn lemma_stripped(prefix: Seq<char>, t: Seq<char>)
    requires
        prefix.len() >= 2,
        t.len() < 2 || t[0] != prefix[0] || t[1] != prefix[1],
    ensures
        without_prefix(prefix + t, prefix) == t,
{
    lemma_not_begun(prefix, t);
    let s = prefix + t;
    assert(s.take(prefix.len() as int) =~= prefix);
    assert(s.skip(prefix.len() as int) =~= t);
    reveal_with_fuel(without_prefix, 2);
}

proof fn lemma_result_start(r: QueryResult)
    ensures
        r.text().len() >= 2,
        !(r.text()[0] == 'O' && r.text()[1] == 'K'),
        !(r.text()[0] == 'E' && r.text()[1] == 'R'),
{
    reveal_strlit("Nodes (");
    reveal_strlit("Edges (");
    reveal_strlit("Traversal [");
    reveal_strlit("Path (");
    reveal_strlit("(not found)");
    reveal_strlit("Count: ");
    reveal_strlit("(empty)");
    reveal_strlit("(");
    reveal_strlit("N");
    reveal_strlit(" :");
    reveal_strlit(") -[");
}

proof fn lemma_message_start(e: GraphErrorView)
    ensures
        e.message().len() >= 2,
        !(e.message()[0] == 'O' && e.message()[1] == 'K'),
        !(e.message()[0] == 'E' && e.message()[1] == 'R'),
{
    reveal_strlit("node ");
    reveal_strlit("edge ");
    reveal_strlit("storage I/O error: ");
    reveal_strlit("serialization error: ");
    reveal_strlit("deserialization error: ");
}

/// A query that a client sends is read by the server as the query and the language that
/// the client read, whatever the language of the session.
pub proof fn law_wire_keeps_the_query(line: Seq<char>, current: Lang, other: Lang)
    requires
        is_trim(line),
    ensures
        prefixed(wire_text(line, current), other) == prefixed(line, current),
{
    let p = prefixed(line, current);
    assert(is_trim(p.1)) by {
        if let Some(rest) = after(line, "simple:"@) {
            law_trimmed_is_trim(rest);
        } else if let Some(rest) = after(line, "cypher:"@) {
            law_trimmed_is_trim(rest);
        }
    }
    law_prefix_chooses_language(p.0, other, p.1);
    assert(wire_text(line, current) =~= language_prefix(p.0) + p.1);
}

/// The line that marks the end of an answer ends it, with white space round it or not,
/// and no other line does.
pub proof fn law_mark_ends_an_answer(a: Seq<char>, b: Seq<char>, line: Seq<char>)
    requires
        is_blank(a),
        is_blank(b),
        is_trim(line),
    ensures
        ends_answer(a + end_mark() + b),
        ends_answer(a + line + b) <==> line == "---END---"@,
{
    reveal_strlit("---END---");
    law_trimming_leaves_the_middle(a, line, b);
    law_trimming_leaves_the_middle(a, end_mark(), b);
}

/// What the console shows for a query is the result as far as the limit goes, or the
/// message of the error.
pub proof fn law_outcome_is_shown(r: QueryResult, e: GraphErrorView, limit: nat)
    ensures
        query_text(Ok(r), limit) == shown(r, limit),
        begins_with(query_text(Err(e), limit), "Error: "@ + e.message()),
{
    let t = query_text(Err(e), limit);
    let head = "Error: "@ + e.message();
    assert(t.take(head.len() as int) =~= head);
}

/// The plan that is shown for a query is the one that is chosen for its command; for a
/// query that cannot be read the error is shown.
pub proof fn law_plan_is_shown<S: StoragePort, C: CachePort, E: GraphEnginePort>(
    db: &LayeredGraphDatabase<S, C, E>,
    query: Seq<char>,
)
    ensures
        SimpleQueryLanguage.command(query) matches Ok(c) ==> shows(
            plan_text(db, Lang::Simple, query),
            plan_of(c, db.holdings().stats()).description(db.holdings().stats()),
        ),
        SimpleQueryLanguage.command(query) matches Err(e) ==> shows(
            plan_text(db, Lang::Simple, query),
            e.message(),
        ),
        CypherLiteLanguage.command(query) matches Ok(c) ==> shows(
            plan_text(db, Lang::Cypher, query),
            plan_of(c, db.holdings().stats()).description(db.holdings().stats()),
        ),
        CypherLiteLanguage.command(query) matches Err(e) ==> shows(
            plan_text(db, Lang::Cypher, query),
            e.message(),
        ),
{
    let stats = db.holdings().stats();
    match SimpleQueryLanguage.command(query) {
        Ok(c) => lemma_shows("Plan: "@, plan_of(c, stats).description(stats), "\n"@),
        Err(e) => lemma_shows("Error: "@, e.message(), "\n"@),
    }
    match CypherLiteLanguage.command(query) {
        Ok(c) => lemma_shows("Plan: "@, plan_of(c, stats).description(stats), "\n"@),
        Err(e) => lemma_shows("Error: "@, e.message(), "\n"@),
    }
}

/// The value of an option is the one that is set, and the default where none is set; a
/// number is read where it is one. The cache holds twice as many edges as nodes.
pub proof fn law_options_are_used(
    m: Map<Seq<char>, Seq<char>>,
    key: Seq<char>,
    value: Seq<char>,
    default: Seq<char>,
    n: usize,
    d: usize,
)
    requires
        n <= u64::MAX,
        2 * n <= usize::MAX,
    ensures
        option_or(m.insert(key, value), key, default) == value,
        option_or(m.remove(key), key, default) == default,
        size_or(m.insert(key, decimal(n as nat)), key, d) == n,
        size_or(m.remove(key), key, d) == d,
        open_options(m.insert("cache"@, decimal(n as nat))).cached_nodes == n,
        open_options(m.insert("cache"@, decimal(n as nat))).cached_edges == 2 * n,
        open_options(m.insert("format"@, "bin"@)).format is Binary,
        open_options(m.insert("format"@, "binary"@)).format is Binary,
        open_options(m.remove("format"@)).format is Json,
{
    law_number_reads_back(n as u64);
    reveal_strlit("bin");
    reveal_strlit("binary");
    reveal_strlit("json");
    assert("json"@.len() == 4 && "bin"@.len() == 3 && "binary"@.len() == 6);
}

} // verus!
