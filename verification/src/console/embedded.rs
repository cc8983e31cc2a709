//! The console on a database at hand.

use crate::console::commands::{
    embedded_command, handle_quit, help_topic, is_quit, local_text, read_embedded_command,
    run_local, topic_of, HelpTopic, MetaCommand, MetaView,
};
use crate::console::display::{print_result, shown};
use crate::console::sample::{
    consecutive, seed_sample_graph, seed_text, show_seed, with_cities, with_rails, SeedOutcome, CITY_COUNT,
    RAIL_COUNT,
};
use crate::console::state::{remembered, ReplState};
use crate::database::layered::schema::{by_count, counts_labels, LabelCount};
use crate::database::layered::LayeredGraphDatabase;
use crate::database::metrics::{next, DatabaseMetrics};
use crate::layout::{
    after, align_left, align_right, left_aligned, repeat, repeated, right_aligned,
};
use crate::model::error::{GraphError, GraphErrorView};
use crate::model::edge::EdgeView;
use crate::model::edge_id::EdgeId;
use crate::model::node::NodeView;
use crate::model::node_id::NodeId;
use crate::ports::cache::CachePort;
use crate::ports::engine::GraphEnginePort;
use crate::ports::storage::StoragePort;
use crate::query::languages::cypher_lite::CypherLiteLanguage;
use crate::query::languages::simple::SimpleQueryLanguage;
use crate::query::ast::CommandView;
use crate::query::planner::plan_of;
use crate::query::port::QueryLanguagePort;
use crate::query::result::QueryResult;
use crate::server::{answers_in, outcome, parse_lang_prefix, prefixed, run_query, Lang};
use crate::text::{concat2, concat3, decimal, u64_to_text};
use vstd::prelude::*;
use vstd::string::StringExecFns;

verus! {

/// A row of the table of labels.
pub open spec fn label_row(c: LabelCount) -> Seq<char> {
    "  "@ + left_aligned(c.label@, 30) + "  "@ + right_aligned(decimal(c.count as nat), 10) + "\n"@
}

/// The rows of the table of labels.
pub open spec fn label_rows(s: Seq<LabelCount>) -> Seq<char>
    decreases s.len(),
{
    if s.len() == 0 {
        Seq::empty()
    } else {
        label_rows(s.drop_last()) + label_row(s.last())
    }
}

/// The table of labels.
pub open spec fn label_table(s: Seq<LabelCount>) -> Seq<char> {
    if s.len() == 0 {
        "(no nodes)\n"@
    } else {
        "  "@ + left_aligned("Label"@, 30) + "  "@ + right_aligned("Count"@, 10) + "\n  "@ + repeated(
            '-',
            43,
        ) + "\n"@ + label_rows(s)
    }
}

fn show_labels(s: &Vec<LabelCount>) -> (r: String)
    ensures
        r@ == label_table(s@),
{
    if s.len() == 0 {
        return String::from_str("(no nodes)\n");
    }
    let mut out = concat3("  ", align_left("Label", 30).as_str(), "  ");
    out.append(align_right("Count", 10).as_str());
    out.append("\n  ");
    out.append(repeat('-', 43).as_str());
    out.append("\n");
    let ghost head = out@;
    let mut i: usize = 0;
    assert(out@ =~= head + label_rows(s@.take(0)));
    while i < s.len()
        invariant
            i <= s.len(),
            out@ == head + label_rows(s@.take(i as int)),
        decreases s.len() - i,
    {
        proof {
            assert(s@.take(i + 1).drop_last() =~= s@.take(i as int));
            assert(s@.take(i + 1).last() == s@[i as int]);
        }
        let mut row = concat3("  ", align_left(s[i].label.as_str(), 30).as_str(), "  ");
        row.append(align_right(u64_to_text(s[i].count as u64).as_str(), 10).as_str());
        row.append("\n");
        out.append(row.as_str());
        i += 1;
        assert(out@ =~= head + label_rows(s@.take(i as int)));
    }
    assert(s@.take(i as int) =~= s@);
    out
}

/// How many labels the schema shows.
pub const SCHEMA_LABELS: usize = 20;

/// A row of the labels in the schema.
pub open spec fn schema_row(c: LabelCount) -> Seq<char> {
    "    "@ + left_aligned(c.label@, 30) + " "@ + right_aligned(decimal(c.count as nat), 8)
        + " nodes\n"@
}

/// The rows of the labels in the schema.
pub open spec fn schema_rows(s: Seq<LabelCount>) -> Seq<char>
    decreases s.len(),
{
    if s.len() == 0 {
        Seq::empty()
    } else {
        schema_rows(s.drop_last()) + schema_row(s.last())
    }
}

/// One line for each property.
pub open spec fn field_lines(s: Seq<Seq<char>>) -> Seq<char>
    decreases s.len(),
{
    if s.len() == 0 {
        Seq::empty()
    } else {
        field_lines(s.drop_last()) + "    "@ + s.last() + "\n"@
    }
}

/// The first of some labels, as many as are shown.
pub open spec fn first_labels(s: Seq<LabelCount>, n: nat) -> Seq<LabelCount> {
    s.take(
        if s.len() < n {
            s.len() as int
        } else {
            n as int
        },
    )
}

/// What is shown of the schema.
pub open spec fn schema_text(
    nodes: nat,
    edges: nat,
    labels: Seq<LabelCount>,
    fields: Seq<Seq<char>>,
    size: u64,
) -> Seq<char> {
    "  Nodes: "@ + decimal(nodes) + "  |  Edges: "@ + decimal(edges) + "\n\n  Labels ("@ + decimal(
        labels.len(),
    ) + "):\n"@ + schema_rows(first_labels(labels, SCHEMA_LABELS as nat))
        + "\n  Indexed property fields ("@ + decimal(fields.len()) + "):\n"@ + field_lines(fields)
        + "\n  WAL size: "@ + decimal(size as nat) + " bytes\n"@
}

fn push_schema_rows(out: &mut String, s: &Vec<LabelCount>)
    ensures
        final(out)@ == old(out)@ + schema_rows(first_labels(s@, SCHEMA_LABELS as nat)),
{
    let n: usize = if s.len() < SCHEMA_LABELS {
        s.len()
    } else {
        SCHEMA_LABELS
    };
    let mut i: usize = 0;
    assert(out@ =~= old(out)@ + schema_rows(s@.take(0)));
    while i < n
        invariant
            i <= n <= s.len(),
            out@ == old(out)@ + schema_rows(s@.take(i as int)),
        decreases n - i,
    {
        proof {
            assert(s@.take(i + 1).drop_last() =~= s@.take(i as int));
            assert(s@.take(i + 1).last() == s@[i as int]);
        }
        let mut row = concat3("    ", align_left(s[i].label.as_str(), 30).as_str(), " ");
        row.append(align_right(u64_to_text(s[i].count as u64).as_str(), 8).as_str());
        row.append(" nodes\n");
        out.append(row.as_str());
        i += 1;
        assert(out@ =~= old(out)@ + schema_rows(s@.take(i as int)));
    }
}

/// The texts of strings.
pub open spec fn strings(s: Seq<String>) -> Seq<Seq<char>> {
    s.map_values(|x: String| x@)
}

/// Writes one line for each property.
pub fn push_fields(out: &mut String, s: &Vec<String>)
    ensures
        final(out)@ == old(out)@ + field_lines(strings(s@)),
{
    let ghost all = strings(s@);
    let mut i: usize = 0;
    assert(out@ =~= old(out)@ + field_lines(all.take(0)));
    while i < s.len()
        invariant
            i <= s.len(),
            all == strings(s@),
            out@ == old(out)@ + field_lines(all.take(i as int)),
        decreases s.len() - i,
    {
        proof {
            assert(all.take(i + 1).drop_last() =~= all.take(i as int));
            assert(all.take(i + 1).last() == s@[i as int]@);
        }
        out.append(concat3("    ", s[i].as_str(), "\n").as_str());
        i += 1;
        assert(out@ =~= old(out)@ + field_lines(all.take(i as int)));
    }
    assert(all.take(i as int) =~= all);
}

/// Whether a list holds each text of a set once.
pub open spec fn lists_texts(s: Seq<Seq<char>>, set: Set<Seq<char>>) -> bool {
    &&& s.no_duplicates()
    &&& forall|x: Seq<char>| #[trigger] set.contains(x) <==> s.contains(x)
}

/// Whether a text is the table of the labels of nodes.
pub open spec fn is_label_table(m: Map<Seq<char>, Seq<NodeId>>, text: Seq<char>) -> bool {
    exists|s: Seq<LabelCount>| #[trigger]
        counts_labels(s, m) && by_count(s) && text == label_table(s)
}

/// Whether a text is the schema of a database.
pub open spec fn is_schema<S: StoragePort, C: CachePort, E: GraphEnginePort>(
    db: &LayeredGraphDatabase<S, C, E>,
    text: Seq<char>,
) -> bool {
    exists|s: Seq<LabelCount>, f: Seq<Seq<char>>|
        counts_labels(s, db.labels()) && by_count(s) && lists_texts(f, db.fields().dom()) && text
            == #[trigger] schema_text(
            db.structure().outgoing.len(),
            db.structure().endpoints.len(),
            s,
            f,
            db.storage_size(),
        )
}

/// Shows the schema of a database.
pub fn show_schema<S: StoragePort, C: CachePort, E: GraphEnginePort>(
    db: &LayeredGraphDatabase<S, C, E>,
) -> (r: String)
    ensures
        is_schema(db, r@),
{
    let labels = db.label_stats();
    let fields = db.indexed_fields();
    let size: u64 = db.wal_size_bytes();
    let mut out = concat3("  Nodes: ", u64_to_text(db.node_count() as u64).as_str(), "  |  Edges: ");
    out.append(u64_to_text(db.edge_count() as u64).as_str());
    out.append("\n\n  Labels (");
    out.append(u64_to_text(labels.len() as u64).as_str());
    out.append("):\n");
    push_schema_rows(&mut out, &labels);
    out.append("\n  Indexed property fields (");
    out.append(u64_to_text(fields.len() as u64).as_str());
    out.append("):\n");
    push_fields(&mut out, &fields);
    out.append("\n  WAL size: ");
    out.append(u64_to_text(size).as_str());
    out.append(" bytes\n");
    proof {
        let f = strings(fields@);
        lemma_lists_texts(fields@, db.fields().dom());
        assert(out@ == schema_text(
            db.structure().outgoing.len(),
            db.structure().endpoints.len(),
            labels@,
            f,
            size,
        ));
    }
    out
}

/// A list of strings without repetition lists their texts.
pub proof fn lemma_lists_texts(v: Seq<String>, set: Set<Seq<char>>)
    requires
        forall|i: int, j: int| 0 <= i < j < v.len() ==> #[trigger] v[i]@ != #[trigger] v[j]@,
        forall|i: int| 0 <= i < v.len() ==> set.contains(#[trigger] v[i]@),
        forall|x: Seq<char>| #[trigger]
            set.contains(x) ==> exists|i: int| 0 <= i < v.len() && #[trigger] v[i]@ == x,
    ensures
        lists_texts(strings(v), set),
{
    let s = strings(v);
    assert forall|i: int, j: int| 0 <= i < s.len() && 0 <= j < s.len() && i != j implies s[i]
        != s[j] by {
        assert(s[i] == v[i]@ && s[j] == v[j]@);
        if i < j {
            assert(v[i]@ != v[j]@);
        } else {
            assert(v[j]@ != v[i]@);
        }
    }
    assert forall|x: Seq<char>| #[trigger] set.contains(x) <==> s.contains(x) by {
        if set.contains(x) {
            let i = choose|i: int| 0 <= i < v.len() && #[trigger] v[i]@ == x;
            assert(s[i] == x);
        }
        if s.contains(x) {
            let i = choose|i: int| 0 <= i < s.len() && s[i] == x;
            assert(v[i]@ == x);
        }
    }
}

/// Whether a compaction took place: the storage was rewritten with what is live,
/// the cache emptied and the compaction counted.
pub open spec fn was_compacted<S: StoragePort, C: CachePort, E: GraphEnginePort>(
    before: &LayeredGraphDatabase<S, C, E>,
    after: &LayeredGraphDatabase<S, C, E>,
) -> bool {
    &&& after.stored() == before.stored().rollback()
    &&& after.storage_compacted()
    &&& after.cached_nodes() == Map::<NodeId, NodeView>::empty()
    &&& after.cached_edges() == Map::<EdgeId, EdgeView>::empty()
    &&& after.writes() == 0
    &&& after.counters() == (DatabaseMetrics {
        compactions: next(before.counters().compactions),
        ..before.counters()
    })
}

/// Whether a text tells what came of a compaction: it took place, and the size of
/// the storage is shown, or the storage failed, and nothing was counted.
pub open spec fn tells_compaction<S: StoragePort, C: CachePort, E: GraphEnginePort>(
    before: &LayeredGraphDatabase<S, C, E>,
    after: &LayeredGraphDatabase<S, C, E>,
    text: Seq<char>,
) -> bool {
    ||| was_compacted(before, after) && text == "WAL compacted.  Size now: "@ + decimal(
        after.storage_size() as nat,
    ) + " bytes\n"@
    ||| {
        &&& !before.reliable()
        &&& after.counters() == before.counters()
        &&& after.writes() == before.writes()
        &&& after.cached_nodes() == before.cached_nodes()
        &&& after.cached_edges() == before.cached_edges()
        &&& exists|e: GraphErrorView|
            text == "Compact failed: "@ + #[trigger] e.message() + "\n"@
    }
}

/// The command of a query in one of the languages.
pub open spec fn command_in(lang: Lang, query: Seq<char>) -> Result<CommandView, GraphErrorView> {
    match lang {
        Lang::Simple => SimpleQueryLanguage.command(query),
        Lang::Cypher => CypherLiteLanguage.command(query),
    }
}

/// What is shown of the plan for a query.
pub open spec fn plan_text<S: StoragePort, C: CachePort, E: GraphEnginePort>(
    db: &LayeredGraphDatabase<S, C, E>,
    lang: Lang,
    query: Seq<char>,
) -> Seq<char> {
    let stats = db.holdings().stats();
    match command_in(lang, query) {
        Ok(c) => "Plan: "@ + plan_of(c, stats).description(stats) + "\n"@,
        Err(e) => "Error: "@ + e.message() + "\n"@,
    }
}

fn show_plan<S: StoragePort, C: CachePort, E: GraphEnginePort>(
    db: &LayeredGraphDatabase<S, C, E>,
    lang: Lang,
    query: &str,
) -> (r: String)
    ensures
        r@ == plan_text(db, lang, query@),
{
    let explained = match lang {
        Lang::Simple => db.explain_query(&SimpleQueryLanguage, query),
        Lang::Cypher => db.explain_query(&CypherLiteLanguage, query),
    };
    match explained {
        Ok(plan) => concat3("Plan: ", plan.as_str(), "\n"),
        Err(e) => concat3("Error: ", e.display().as_str(), "\n"),
    }
}

/// What is to be done about a command.
pub enum MetaOutcome {
    /// Show a text.
    Text(String),
    /// Clear the screen.
    Clear,
    /// Run the lines of a file.
    RunFile(String),
    /// Show the overview of the help.
    Help,
    /// Show the help on a topic.
    Topic(HelpTopic),
    /// Nothing: the line is no command.
    NotMeta,
}

/// Whether what is done about a command is right. The database is given as it was
/// before and as it is after.
pub open spec fn right_outcome<S: StoragePort, C: CachePort, E: GraphEnginePort>(
    c: MetaView,
    state: &ReplState,
    db: &LayeredGraphDatabase<S, C, E>,
    after: &LayeredGraphDatabase<S, C, E>,
    r: MetaOutcome,
) -> bool {
    match c {
        MetaView::NotMeta => r is NotMeta,
        MetaView::Clear => r is Clear,
        MetaView::Help => r is Help,
        MetaView::Run(p) => r matches MetaOutcome::RunFile(f) && f@ == p,
        MetaView::HelpTopic(t) => r matches MetaOutcome::Topic(x) && x@ == topic_of(t),
        MetaView::Nodes => says(
            r,
            "Nodes: "@ + decimal(db.structure().outgoing.len()) + "\n"@,
        ),
        MetaView::Edges => says(
            r,
            "Edges: "@ + decimal(db.structure().endpoints.len()) + "\n"@,
        ),
        MetaView::Labels => r matches MetaOutcome::Text(t) && is_label_table(db.labels(), t@),
        MetaView::Schema => r matches MetaOutcome::Text(t) && is_schema(db, t@),
        MetaView::Metrics => says(r, db.counters().text() + "\n"@),
        MetaView::Compact => r matches MetaOutcome::Text(t) && tells_compaction(db, after, t@),
        MetaView::Seed => r matches MetaOutcome::Text(t) && is_seed_text(db, t@),
        MetaView::Explain(q) => says(r, plan_text(db, state.lang, q)),
        MetaView::BadLimit => says(r, "Usage: :limit <number>  (0 = unlimited)\n"@),
        _ => match local_text(c, state) {
            Some(t) => says(r, t),
            None => false,
        },
    }
}

/// Whether a text is shown.
pub open spec fn says(r: MetaOutcome, text: Seq<char>) -> bool {
    r matches MetaOutcome::Text(t) && t@ == text
}

/// Whether a text tells what came of loading the sample.
pub open spec fn is_seed_text<S: StoragePort, C: CachePort, E: GraphEnginePort>(
    db: &LayeredGraphDatabase<S, C, E>,
    text: Seq<char>,
) -> bool {
    exists|o: SeedOutcome|
        text == #[trigger] seed_text(o) && match o {
            SeedOutcome::NotEmpty(n) => n > 0 && n == db.structure().outgoing.len(),
            SeedOutcome::Failed(_) => db.structure().outgoing.len() == 0 && !db.reliable(),
            SeedOutcome::Seeded { ids, edges } => {
                &&& db.structure().outgoing.len() == 0
                &&& ids@.len() == CITY_COUNT
                &&& consecutive(ids@, db.next_node())
                &&& edges <= RAIL_COUNT
                &&& db.reliable() ==> edges == RAIL_COUNT
            },
        }
}

/// Whether the database is as a command leaves it.
pub open spec fn carried_out<S: StoragePort, C: CachePort, E: GraphEnginePort>(
    c: MetaView,
    before: &LayeredGraphDatabase<S, C, E>,
    after: &LayeredGraphDatabase<S, C, E>,
) -> bool {
    match c {
        MetaView::Compact => after.graph() == before.graph() && after.structure()
            == before.structure() && (before.coherent() ==> after.coherent()),
        MetaView::Seed => {
            &&& before.structure().outgoing.len() > 0 ==> *after == *before
            &&& before.structure().outgoing.len() == 0 && before.reliable() && before.coherent()
                ==> after.coherent() && after.graph() == with_rails(
                with_cities(before.graph(), before.next_node(), CITY_COUNT as nat),
                before.next_node(),
                before.next_edge(),
                RAIL_COUNT as nat,
            )
        },
        _ => *after == *before,
    }
}

/// The language after a command.
pub open spec fn lang_after(c: MetaView, lang: Lang) -> Lang {
    match c {
        MetaView::Use(l) => l,
        _ => lang,
    }
}

/// Whether times are shown after a command.
pub open spec fn timing_after(c: MetaView, shown: bool) -> bool {
    match c {
        MetaView::SetTiming(on) => on,
        _ => shown,
    }
}

/// How many results are shown after a command.
pub open spec fn limit_after(c: MetaView, limit: usize) -> usize {
    match c {
        MetaView::SetLimit(n) => n,
        _ => limit,
    }
}

/// Carries out a command, if the line is one. The counters must be small enough to
/// be shown, and identifiers must be left for the sample, where that is asked for.
pub fn handle_meta_embedded<S: StoragePort, C: CachePort, E: GraphEnginePort>(
    line: &str,
    state: &mut ReplState,
    db: &mut LayeredGraphDatabase<S, C, E>,
) -> (r: MetaOutcome)
    requires
        old(db).well_formed(),
        embedded_command(line@) is Metrics ==> old(db).counters().sums_fit(),
        embedded_command(line@) is Seed ==> old(db).next_node() <= u64::MAX - CITY_COUNT && old(
            db,
        ).next_edge() <= u64::MAX - RAIL_COUNT,
    ensures
        final(db).well_formed(),
        final(db).reliable() == old(db).reliable(),
        final(db).marks() == old(db).marks(),
        final(db).settings() == old(db).settings(),
        right_outcome(embedded_command(line@), old(state), old(db), final(db), r),
        carried_out(embedded_command(line@), old(db), final(db)),
        final(state).lang == lang_after(embedded_command(line@), old(state).lang),
        final(state).show_timing == timing_after(
            embedded_command(line@),
            old(state).show_timing,
        ),
        final(state).result_limit == limit_after(
            embedded_command(line@),
            old(state).result_limit,
        ),
        final(state).lines() == old(state).lines(),
{
    let command = read_embedded_command(line);
    if let Some(text) = run_local(&command, state) {
        return MetaOutcome::Text(text);
    }
    match command {
        MetaCommand::Nodes => {
            let n = u64_to_text(db.node_count() as u64);
            MetaOutcome::Text(concat3("Nodes: ", n.as_str(), "\n"))
        },
        MetaCommand::Edges => {
            let n = u64_to_text(db.edge_count() as u64);
            MetaOutcome::Text(concat3("Edges: ", n.as_str(), "\n"))
        },
        MetaCommand::Labels => {
            let stats = db.label_stats();
            let text = show_labels(&stats);
            assert(is_label_table(db.labels(), text@)) by {
                assert(counts_labels(stats@, db.labels()));
            }
            MetaOutcome::Text(text)
        },
        MetaCommand::Schema => MetaOutcome::Text(show_schema(db)),
        MetaCommand::Metrics => MetaOutcome::Text(concat2(db.metrics().display().as_str(), "\n")),
        MetaCommand::Compact => {
            match db.compact() {
                Ok(_) => {
                    let size: u64 = db.wal_size_bytes();
                    let text = concat3(
                        "WAL compacted.  Size now: ",
                        u64_to_text(size).as_str(),
                        " bytes\n",
                    );
                    assert(text@ == "WAL compacted.  Size now: "@ + decimal(size as nat)
                        + " bytes\n"@);
                    MetaOutcome::Text(text)
                },
                Err(e) => {
                    let text = concat3("Compact failed: ", e.display().as_str(), "\n");
                    assert(text@ == "Compact failed: "@ + e@.message() + "\n"@);
                    MetaOutcome::Text(text)
                },
            }
        },
        MetaCommand::Seed => {
            let o = seed_sample_graph(db);
            let text = show_seed(&o);
            assert(is_seed_text(old(db), text@)) by {
                assert(text@ == seed_text(o));
            }
            MetaOutcome::Text(text)
        },
        MetaCommand::Explain(q) => MetaOutcome::Text(show_plan(db, state.lang, q.as_str())),
        MetaCommand::BadLimit => MetaOutcome::Text(
            String::from_str("Usage: :limit <number>  (0 = unlimited)\n"),
        ),
        MetaCommand::Run(p) => MetaOutcome::RunFile(p),
        MetaCommand::Clear => MetaOutcome::Clear,
        MetaCommand::Help => MetaOutcome::Help,
        MetaCommand::HelpTopic(t) => MetaOutcome::Topic(help_topic(t.as_str())),
        _ => MetaOutcome::NotMeta,
    }
}

/// The text that is shown for a query with the given outcome.
pub open spec fn query_text(o: Result<QueryResult, GraphErrorView>, limit: nat) -> Seq<char> {
    match o {
        Ok(result) => shown(result, limit),
        Err(e) => "Error: "@ + e.message() + "\n"@,
    }
}

/// Whether a text is shown for a query.
pub open spec fn shows_query<S: StoragePort, C: CachePort, E: GraphEnginePort>(
    db: &LayeredGraphDatabase<S, C, E>,
    lang: Lang,
    query: Seq<char>,
    limit: nat,
    text: Seq<char>,
) -> bool {
    exists|o: Result<QueryResult, GraphErrorView>| #[trigger]
        answers_in(db, lang, query, o) && text == query_text(o, limit)
}

/// The text that is shown for a query with the given outcome.
pub fn show_outcome(r: &Result<QueryResult, GraphError>, limit: usize) -> (text: String)
    ensures
        text@ == query_text(outcome(*r), limit as nat),
{
    match r {
        Ok(result) => print_result(result, limit),
        Err(e) => concat3("Error: ", e.display().as_str(), "\n"),
    }
}

/// Runs a query and gives the text that is shown for it.
pub fn run_query_embedded<S: StoragePort, C: CachePort, E: GraphEnginePort>(
    db: &mut LayeredGraphDatabase<S, C, E>,
    lang: Lang,
    query: &str,
    limit: usize,
) -> (r: String)
    requires
        old(db).well_formed(),
    ensures
        final(db).well_formed(),
        final(db).same_layers(old(db)),
        final(db).has_counted_query(old(db)),
        old(db).coherent() ==> final(db).coherent(),
        shows_query(old(db), lang, query@, limit as nat, r@),
{
    let result = run_query(db, lang, query);
    let text = show_outcome(&result, limit);
    assert(answers_in(old(db), lang, query@, outcome(result)));
    text
}

/// What is to be done about a line.
pub enum Action {
    /// End the console.
    Quit,
    /// Do something about a command.
    Meta(MetaOutcome),
    /// Show the text of a query.
    Result(String),
}

/// The language after a line.
pub open spec fn next_lang(line: Seq<char>, lang: Lang) -> Lang {
    if is_quit(line) {
        lang
    } else {
        lang_after(embedded_command(line), lang)
    }
}

/// Whether times are shown after a line.
pub open spec fn next_timing(line: Seq<char>, shown: bool) -> bool {
    if is_quit(line) {
        shown
    } else {
        timing_after(embedded_command(line), shown)
    }
}

/// How many results are shown after a line.
pub open spec fn next_limit(line: Seq<char>, limit: usize) -> usize {
    if is_quit(line) {
        limit
    } else {
        limit_after(embedded_command(line), limit)
    }
}

/// The language after lines, one after the other.
pub open spec fn lang_after_lines(lines: Seq<Seq<char>>, lang: Lang) -> Lang
    decreases lines.len(),
{
    if lines.len() == 0 {
        lang
    } else {
        next_lang(lines.last(), lang_after_lines(lines.drop_last(), lang))
    }
}

/// The limit after lines, one after the other.
pub open spec fn limit_after_lines(lines: Seq<Seq<char>>, limit: usize) -> usize
    decreases lines.len(),
{
    if lines.len() == 0 {
        limit
    } else {
        next_limit(lines.last(), limit_after_lines(lines.drop_last(), limit))
    }
}

/// A language or a limit that was chosen holds until another is chosen: a query
/// without a prefix is run in the language, and shows so many results.
pub proof fn law_choices_last(
    chosen: Seq<char>,
    lines: Seq<Seq<char>>,
    query: Seq<char>,
    lang: Lang,
    limit: usize,
)
    requires
        !is_quit(chosen),
        after(query, "simple:"@) is None,
        after(query, "cypher:"@) is None,
    ensures
        (embedded_command(chosen) matches MetaView::Use(l) ==> (forall|i: int|
            0 <= i < lines.len() ==> !(embedded_command(#[trigger] lines[i]) is Use)) ==> prefixed(
            query,
            lang_after_lines(seq![chosen] + lines, lang),
        ) == (l, query)),
        (embedded_command(chosen) matches MetaView::SetLimit(n) ==> (forall|i: int|
            0 <= i < lines.len() ==> !(embedded_command(#[trigger] lines[i]) is SetLimit))
            ==> limit_after_lines(seq![chosen] + lines, limit) == n),
    decreases lines.len(),
{
    let all = seq![chosen] + lines;
    if lines.len() == 0 {
        assert(all.drop_last() =~= Seq::empty());
        assert(all.last() == chosen);
        reveal_with_fuel(lang_after_lines, 2);
        reveal_with_fuel(limit_after_lines, 2);
    } else {
        let before = lines.drop_last();
        assert(all.drop_last() =~= seq![chosen] + before);
        assert(all.last() == lines.last());
        assert forall|i: int| 0 <= i < before.len() implies before[i] == #[trigger] lines[i] by {}
        assert(lines[lines.len() - 1] == lines.last());
        law_choices_last(chosen, before, query, lang, limit);
    }
}

/// Takes a line that is not blank: remembers it, and carries out the command or
/// runs the query that it holds.
pub fn take_line<S: StoragePort, C: CachePort, E: GraphEnginePort>(
    line: &str,
    state: &mut ReplState,
    db: &mut LayeredGraphDatabase<S, C, E>,
) -> (r: Action)
    requires
        old(db).well_formed(),
        embedded_command(line@) is Metrics ==> old(db).counters().sums_fit(),
        embedded_command(line@) is Seed ==> old(db).next_node() <= u64::MAX - CITY_COUNT && old(
            db,
        ).next_edge() <= u64::MAX - RAIL_COUNT,
    ensures
        final(db).well_formed(),
        final(db).reliable() == old(db).reliable(),
        final(db).marks() == old(db).marks(),
        final(db).settings() == old(db).settings(),
        final(state).lines() == remembered(old(state).lines(), line@),
        final(state).lang == next_lang(line@, old(state).lang),
        final(state).show_timing == next_timing(line@, old(state).show_timing),
        final(state).result_limit == next_limit(line@, old(state).result_limit),
        match r {
            Action::Quit => is_quit(line@) && *final(db) == *old(db),
            Action::Meta(m) => {
                &&& !is_quit(line@)
                &&& !(embedded_command(line@) is NotMeta)
                &&& carried_out(embedded_command(line@), old(db), final(db))
                &&& exists|noted: ReplState|
                    noted.lines() == remembered(old(state).lines(), line@) && noted.lang == old(
                        state,
                    ).lang && noted.show_timing == old(state).show_timing && noted.result_limit
                        == old(state).result_limit && #[trigger] right_outcome(
                        embedded_command(line@),
                        &noted,
                        old(db),
                        final(db),
                        m,
                    )
            },
            Action::Result(text) => {
                let p = prefixed(line@, old(state).lang);
                &&& !is_quit(line@)
                &&& embedded_command(line@) is NotMeta
                &&& final(db).same_layers(old(db))
                &&& final(db).has_counted_query(old(db))
                &&& old(db).coherent() ==> final(db).coherent()
                &&& shows_query(old(db), p.0, p.1, old(state).result_limit as nat, text@)
            },
        },
{
    state.record(line);
    if handle_quit(line) {
        return Action::Quit;
    }
    let ghost noted = *state;
    match handle_meta_embedded(line, state, db) {
        MetaOutcome::NotMeta => {
            let (lang, query) = parse_lang_prefix(line, state.lang);
            Action::Result(run_query_embedded(db, lang, query.as_str(), state.result_limit))
        },
        m => {
            assert(right_outcome(embedded_command(line@), &noted, old(db), db, m));
            Action::Meta(m)
        },
    }
}

} // verus!
