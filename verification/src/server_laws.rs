//! What lines ask of a session, and what an answer shows.

use crate::database::layered::LayeredGraphDatabase;
use crate::database::query_laws::{
    gives_nodes, law_cypher_queries_find_what_they_describe, law_queries_fail_only_with_reason,
    law_simple_queries_find_what_they_describe,
};
use crate::layout::begins;
use crate::layout_laws::{
    is_blank, is_trim, law_prefix_and_rest, law_trimming_leaves_the_middle,
};
use crate::model::error::GraphErrorView;
use crate::model::node::NodeView;
use crate::model::text_laws::{begins_with, ends_with};
use crate::ports::cache::CachePort;
use crate::ports::engine::GraphEnginePort;
use crate::ports::storage::StoragePort;
use crate::query::ast::ConditionView;
use crate::query::languages::agreement::is_name;
use crate::query::languages::cypher_lite::CypherLiteLanguage;
use crate::query::languages::simple::SimpleQueryLanguage;
use crate::query::languages::written_cypher::{
    is_writable, law_cypher_node_query_means_its_conditions, node_meets, node_query,
};
use crate::query::languages::written_simple::{
    law_node_query_means_its_conditions, match_words, spaced, Clause,
};
use crate::query::result::QueryResult;
use crate::server::{
    answers_in, framed, is_answer, outcome_text, prefixed, request_of, switch_of, Lang, RequestView,
};
use crate::unicode::{ascii_lower, is_ascii_char, is_ascii_text, is_space, lower, same_word};
use vstd::prelude::*;

verus! {

/// The prefix that chooses a language.
pub open spec fn language_prefix(l: Lang) -> Seq<char> {
    l.text() + ":"@
}

proof fn lemma_prefixes()
    ensures
        language_prefix(Lang::Simple) == "simple:"@,
        language_prefix(Lang::Cypher) == "cypher:"@,
        "simple:"@.len() == 7,
        "cypher:"@.len() == 7,
        "simple:"@[0] == 's',
        "cypher:"@[0] == 'c',
        "simple:"@[6] == ':',
        "cypher:"@[6] == ':',
{
    reveal_strlit("simple");
    reveal_strlit("cypher");
    reveal_strlit(":");
    reveal_strlit("simple:");
    reveal_strlit("cypher:");
    assert(language_prefix(Lang::Simple) =~= "simple:"@);
    assert(language_prefix(Lang::Cypher) =~= "cypher:"@);
}

/// A prefix chooses its language for the query behind it, whatever the language of the
/// session; without a prefix the query is the line, in the language of the session.
pub proof fn law_prefix_chooses_language(l: Lang, current: Lang, q: Seq<char>)
    requires
        is_trim(q),
    ensures
        prefixed(language_prefix(l) + q, current) == (l, q),
        !begins(q, language_prefix(Lang::Simple)) && !begins(q, language_prefix(Lang::Cypher))
            ==> prefixed(q, current) == (current, q),
{
    lemma_prefixes();
    let e = Seq::<char>::empty();
    law_trimming_leaves_the_middle(e, q, e);
    assert(e + q + e =~= q);
    law_prefix_and_rest(language_prefix(l) + q, language_prefix(l), q);
    let line = language_prefix(l) + q;
    assert(line[0] == language_prefix(l)[0]);
    if l == Lang::Cypher {
        assert(line.take(7)[0] == line[0]);
        assert(!begins(line, "simple:"@));
    }
}

#[verifier::rlimit(50)]
proof fn lemma_switches()
    ensures
        ":lang "@ + Lang::Simple.text() == ":lang simple"@,
        ":lang "@ + Lang::Cypher.text() == ":lang cypher"@,
        ":use "@ + Lang::Simple.text() == ":use simple"@,
        ":use "@ + Lang::Cypher.text() == ":use cypher"@,
        ":lang simple"@ != ":lang cypher"@,
        ":lang simple"@ != ":use cypher"@,
        ":use simple"@ != ":lang cypher"@,
        ":use simple"@ != ":use cypher"@,
        ":lang simple"@.len() == 12,
        ":lang cypher"@.len() == 12,
        ":use simple"@.len() == 11,
        ":use cypher"@.len() == 11,
{
    reveal_strlit("simple");
    reveal_strlit("cypher");
    reveal_strlit(":lang ");
    reveal_strlit(":use ");
    reveal_strlit(":lang simple");
    reveal_strlit(":lang cypher");
    reveal_strlit(":use simple");
    reveal_strlit(":use cypher");
    assert(":lang "@ + Lang::Simple.text() =~= ":lang simple"@);
    assert(":lang "@ + Lang::Cypher.text() =~= ":lang cypher"@);
    assert(":use "@ + Lang::Simple.text() =~= ":use simple"@);
    assert(":use "@ + Lang::Cypher.text() =~= ":use cypher"@);
    assert(":lang simple"@[6] != ":lang cypher"@[6]);
    assert(":use simple"@[5] != ":use cypher"@[5]);
}

/// A line switches to a language exactly where it is one of the two commands for it, in
/// either case of letters.
pub proof fn law_switch_names_its_language(line: Seq<char>, l: Lang)
    ensures
        switch_of(line) == Some(l) <==> lower(line) == ":lang "@ + l.text() || lower(line)
            == ":use "@ + l.text(),
{
    lemma_switches();
}

/// Whether a line is a query: it does not begin as a command or with a language.
pub open spec fn is_plain_query(q: Seq<char>) -> bool {
    &&& q.len() > 0
    &&& q[0] != ':'
    &&& !begins(q, language_prefix(Lang::Simple))
    &&& !begins(q, language_prefix(Lang::Cypher))
}

/// A line with nothing but white space asks for nothing. A query, with white space round
/// it or not, is run in the language of the session, and with a prefix in the language
/// that the prefix names.
#[verifier::rlimit(50)]
pub proof fn law_lines_are_read(
    a: Seq<char>,
    q: Seq<char>,
    b: Seq<char>,
    l: Lang,
    current: Lang,
)
    requires
        is_blank(a),
        is_blank(b),
        is_trim(q),
        is_plain_query(q),
        is_ascii_text(q),
    ensures
        request_of(a, current) == RequestView::Blank,
        request_of(a + q + b, current) == RequestView::Query(current, q),
        request_of(a + (language_prefix(l) + q) + b, current) == RequestView::Query(l, q),
{
    reveal_strlit(":quit");
    reveal_strlit(":exit");
    lemma_prefixes();
    let e = Seq::<char>::empty();
    law_trimming_leaves_the_middle(a, e, e);
    assert(a + e + e =~= a);
    law_trimming_leaves_the_middle(a, q, b);
    lemma_no_command(q);
    law_prefix_chooses_language(l, current, q);
    let line = language_prefix(l) + q;
    assert(line[0] == language_prefix(l)[0]);
    assert(line.last() == q.last());
    assert(!is_space('s') && !is_space('c'));
    law_trimming_leaves_the_middle(a, line, b);
    reveal_strlit("simple:");
    reveal_strlit("cypher:");
    assert forall|i: int| 0 <= i < line.len() implies is_ascii_char(#[trigger] line[i]) by {
        if i >= 7 {
            assert(line[i] == q[i - 7]);
        }
    }
    lemma_no_command(line);
}

proof fn lemma_no_command(line: Seq<char>)
    requires
        line.len() > 0,
        line[0] != ':',
    ensures
        !same_word(line, ":quit"@),
        !same_word(line, ":exit"@),
        is_ascii_text(line) ==> switch_of(line) is None,
{
    reveal_strlit(":quit");
    reveal_strlit(":exit");
    lemma_switches();
    assert(ascii_lower(':') == ':');
    assert(ascii_lower(line[0]) != ':');
    reveal_strlit(":lang simple");
    reveal_strlit(":lang cypher");
    reveal_strlit(":use simple");
    reveal_strlit(":use cypher");
    if is_ascii_text(line) {
        assert(lower(line)[0] == ascii_lower(line[0]));
    }
}

/// The answer to a query begins with `OK` and ends with the text of the result, or begins
/// with `ERR` and ends with the message of the error; the two are never taken for each
/// other.
pub proof fn law_answers_tell_success_from_failure(r: QueryResult, e: GraphErrorView)
    ensures
        begins_with(outcome_text(Ok(r)), "OK"@),
        ends_with(outcome_text(Ok(r)), "\n"@ + r.text()),
        begins_with(outcome_text(Err(e)), "ERR"@),
        ends_with(outcome_text(Err(e)), "\n"@ + e.message()),
        outcome_text(Ok(r)) != outcome_text(Err(e)),
{
    reveal_strlit("OK\n");
    reveal_strlit("OK");
    reveal_strlit("ERR\n");
    reveal_strlit("ERR");
    reveal_strlit("\n");
    let s = outcome_text(Ok(r));
    let t = outcome_text(Err(e));
    assert(s.take(2) =~= "OK"@);
    assert(s.skip(s.len() - ("\n"@ + r.text()).len()) =~= "\n"@ + r.text());
    assert(t.take(3) =~= "ERR"@);
    assert(t.skip(t.len() - ("\n"@ + e.message()).len()) =~= "\n"@ + e.message());
    assert(s[0] != t[0]);
}

/// A line that says to quit, in either case of letters and with white space round it, ends
/// the session; a line that switches the language is not taken for a query.
pub proof fn law_commands_of_a_session(
    a: Seq<char>,
    line: Seq<char>,
    b: Seq<char>,
    l: Lang,
    current: Lang,
)
    requires
        is_blank(a),
        is_blank(b),
        is_trim(line),
    ensures
        same_word(line, ":quit"@) || same_word(line, ":exit"@) ==> request_of(
            a + line + b,
            current,
        ) == RequestView::Quit,
        is_ascii_text(line) && (lower(line) == ":lang "@ + l.text() || lower(line) == ":use "@
            + l.text()) ==> request_of(a + line + b, current) == RequestView::Switch(l),
{
    reveal_strlit(":quit");
    reveal_strlit(":exit");
    lemma_switches();
    law_trimming_leaves_the_middle(a, line, b);
    law_switch_names_its_language(line, l);
    if is_ascii_text(line) {
        assert(lower(line).len() == line.len());
    }
}

/// A session answers a query in the simple language for nodes with conditions with the
/// nodes of the graph that meet every condition, where nothing stands in the way.
pub proof fn law_session_finds_what_is_described<
    S: StoragePort,
    C: CachePort,
    E: GraphEnginePort,
>(db: LayeredGraphDatabase<S, C, E>, cs: Seq<Clause>, text: Seq<char>)
    requires
        db.coherent(),
        db.reliable(),
        db.scan_error() is None,
        cs.len() > 0,
        forall|i: int| 0 <= i < cs.len() ==> (#[trigger] cs[i]).writable() && !(cs[i] is Weight),
        is_answer(&db, Lang::Simple, spaced(match_words("NODE"@, cs)), text),
    ensures
        exists|r: QueryResult|
            {
                &&& text == framed("OK\n"@ + #[trigger] r.text())
                &&& gives_nodes(
                    r,
                    db.graph().nodes,
                    |n: NodeView|
                        forall|i: int| 0 <= i < cs.len() ==> (#[trigger] cs[i]).met_by_node(n),
                )
            },
{
    let query = spaced(match_words("NODE"@, cs));
    let o = choose|o: Result<QueryResult, GraphErrorView>| #[trigger]
        answers_in(&db, Lang::Simple, query, o) && text == framed(outcome_text(o));
    assert(db.answers_query(&SimpleQueryLanguage, query, o));
    law_node_query_means_its_conditions(cs);
    law_queries_fail_only_with_reason(db, SimpleQueryLanguage, query, o);
    let r = o->Ok_0;
    law_simple_queries_find_what_they_describe(db, cs, r);
    assert(text == framed("OK\n"@ + r.text()));
}

/// A session answers a query in the Cypher-like language for nodes with a label and
/// conditions with the nodes of the graph that carry it and meet every condition, where
/// nothing stands in the way.
pub proof fn law_session_finds_what_is_described_in_cypher<
    S: StoragePort,
    C: CachePort,
    E: GraphEnginePort,
>(db: LayeredGraphDatabase<S, C, E>, l: Seq<char>, cs: Seq<ConditionView>, text: Seq<char>)
    requires
        db.coherent(),
        db.reliable(),
        db.scan_error() is None,
        is_name(l),
        cs.len() > 0,
        forall|i: int| 0 <= i < cs.len() ==> is_writable(#[trigger] cs[i]),
        is_answer(&db, Lang::Cypher, node_query(l, cs), text),
    ensures
        exists|r: QueryResult|
            {
                &&& text == framed("OK\n"@ + #[trigger] r.text())
                &&& gives_nodes(
                    r,
                    db.graph().nodes,
                    |n: NodeView|
                        n.label == l && forall|i: int|
                            0 <= i < cs.len() ==> node_meets(#[trigger] cs[i], n),
                )
            },
{
    let query = node_query(l, cs);
    let o = choose|o: Result<QueryResult, GraphErrorView>| #[trigger]
        answers_in(&db, Lang::Cypher, query, o) && text == framed(outcome_text(o));
    assert(db.answers_query(&CypherLiteLanguage, query, o));
    law_cypher_node_query_means_its_conditions(l, cs);
    law_queries_fail_only_with_reason(db, CypherLiteLanguage, query, o);
    let r = o->Ok_0;
    law_cypher_queries_find_what_they_describe(db, l, cs, r);
    assert(text == framed("OK\n"@ + r.text()));
}

} // verus!
