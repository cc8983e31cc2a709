//! What the console understands and shows.

use crate::console::arguments::{options_on, without_dashes};
use crate::console::commands::{
    database_command, embedded_command, fixed_command, is_script_line, limit_text, local_text,
    remote_command,
    timing_text, without_prefix, MetaView,
};
use crate::console::display::{rest_line, shown};
use crate::console::sample::{
    city_properties, sample_city, sample_rail, with_cities, with_rails, CITY_COUNT, RAIL_COUNT,
};
use crate::console::state::{
    first_shown, history_lines, remembered, ReplState, HISTORY_CAPACITY,
};
use crate::database::coherence::GraphView;
use crate::float::Float64;
use crate::float_text::is_digit;
use crate::layout::{begins, repeated, right_aligned, trimmed};
use crate::layout_laws::{is_blank, is_trim, law_prefix_and_rest, law_trimming_leaves_the_middle};
use crate::model::edge::Edge;
use crate::model::edge_id::EdgeId;
use crate::model::node::Node;
use crate::model::node_id::NodeId;
use crate::model::text_laws::{begins_with, lemma_shows, shows};
use crate::number_text::{law_number_reads_back, lemma_numeral};
use crate::query::result::{edge_lines, node_lines, QueryResult};
use crate::server::Lang;
use crate::text::decimal;
use crate::unicode::{ascii_lower, is_ascii_char, is_ascii_text, is_space, lower};
use vstd::prelude::*;

verus! {

// ---------------------------------------------------------------------- results

/// A limit of zero shows a whole list. With another the list is shown as far as the limit
/// goes, after the number of all, and then how many are left out.
#[verifier::rlimit(50)]
pub proof fn law_limit_cuts_the_list(nodes: Vec<Node>, edges: Vec<Edge>, limit: nat)
    ensures
        shown(QueryResult::Nodes(nodes), 0) == QueryResult::Nodes(nodes).text(),
        nodes@.len() <= limit ==> shown(QueryResult::Nodes(nodes), limit) == QueryResult::Nodes(
            nodes,
        ).text(),
        0 < limit < nodes@.len() ==> {
            &&& begins_with(
                shown(QueryResult::Nodes(nodes), limit),
                "Nodes ("@ + decimal(nodes@.len()) + "):\n"@ + node_lines(
                    nodes@.take(limit as int),
                ),
            )
            &&& shows(
                shown(QueryResult::Nodes(nodes), limit),
                decimal((nodes@.len() - limit) as nat) + " more"@,
            )
        },
        shown(QueryResult::Edges(edges), 0) == QueryResult::Edges(edges).text(),
        edges@.len() <= limit ==> shown(QueryResult::Edges(edges), limit) == QueryResult::Edges(
            edges,
        ).text(),
        0 < limit < edges@.len() ==> {
            &&& begins_with(
                shown(QueryResult::Edges(edges), limit),
                "Edges ("@ + decimal(edges@.len()) + "):\n"@ + edge_lines(
                    edges@.take(limit as int),
                ),
            )
            &&& shows(
                shown(QueryResult::Edges(edges), limit),
                decimal((edges@.len() - limit) as nat) + " more"@,
            )
        },
{
    let e = Seq::<char>::empty();
    assert(nodes@.take(nodes@.len() as int) =~= nodes@);
    assert(edges@.take(edges@.len() as int) =~= edges@);
    let t = QueryResult::Nodes(nodes).text();
    let u = QueryResult::Edges(edges).text();
    assert(t + e =~= t);
    assert(u + e =~= u);
    if 0 < limit < nodes@.len() {
        lemma_cut(
            "Nodes ("@ + decimal(nodes@.len()) + "):\n"@ + node_lines(nodes@.take(limit as int)),
            nodes@.len(),
            limit,
        );
    }
    if 0 < limit < edges@.len() {
        lemma_cut(
            "Edges ("@ + decimal(edges@.len()) + "):\n"@ + edge_lines(edges@.take(limit as int)),
            edges@.len(),
            limit,
        );
    }
}

proof fn lemma_cut(head: Seq<char>, total: nat, limit: nat)
    requires
        limit < total,
    ensures
        begins_with(head + rest_line(total, limit), head),
        shows(head + rest_line(total, limit), decimal((total - limit) as nat) + " more"@),
{
    reveal_strlit(" more (use :limit 0 to see all)\n");
    reveal_strlit(" more");
    let t = head + rest_line(total, limit);
    assert(t.take(head.len() as int) =~= head);
    let part = decimal((total - limit) as nat) + " more"@;
    let before = head + "  … "@;
    let end = " more (use :limit 0 to see all)\n"@;
    let behind = end.skip(5);
    assert(end =~= " more"@ + behind);
    assert(t =~= before + part + behind);
    lemma_shows(before, part, behind);
}

// ---------------------------------------------------------------------- history

/// A line is remembered as the last, behind those before it, of which the oldest leaves
/// when there are too many. A blank line and a line twice in a row are not.
pub proof fn law_line_is_remembered(h: Seq<Seq<char>>, line: Seq<char>)
    ensures
        line.len() > 0 ==> remembered(h, line).len() > 0 && remembered(h, line).last() == line,
        line.len() == 0 ==> remembered(h, line) == h,
        remembered(remembered(h, line), line) == remembered(h, line),
        line.len() > 0 && h.len() < HISTORY_CAPACITY && (h.len() == 0 || h.last() != line)
            ==> remembered(h, line).drop_last() == h,
        line.len() > 0 && h.len() == HISTORY_CAPACITY && h.last() != line ==> remembered(
            h,
            line,
        ).drop_last() == h.skip(1),
{
    assert(h.push(line).drop_last() =~= h);
    if h.len() > 0 {
        assert(h.push(line).skip(1).drop_last() =~= h.skip(1));
    }
}

/// The remembered lines are shown one after the other, each with its number, which counts
/// from one.
pub proof fn law_history_is_numbered(s: Seq<Seq<char>>, from: int, i: int, to: int)
    requires
        0 <= from <= i < to <= s.len(),
    ensures
        history_lines(s, from, to) == history_lines(s, from, i) + "  "@ + right_aligned(
            decimal((i + 1) as nat),
            3,
        ) + "  "@ + s[i] + "\n"@ + history_lines(s, i + 1, to),
    decreases to - i,
{
    let head = history_lines(s, from, i) + "  "@ + right_aligned(decimal((i + 1) as nat), 3) + "  "@
        + s[i] + "\n"@;
    if to == i + 1 {
        assert(head + history_lines(s, i + 1, to) =~= head);
    } else {
        law_history_is_numbered(s, from, i, to - 1);
        let rest = history_lines(s, i + 1, to - 1);
        let number = right_aligned(decimal(to as nat), 3);
        assert(head + rest + "  "@ + number + "  "@ + s[to - 1] + "\n"@ =~= head + (rest + "  "@
            + number + "  "@ + s[to - 1] + "\n"@));
    }
}

/// The newest of the remembered lines are shown, twenty of them or all where there are
/// fewer.
pub proof fn law_newest_lines_are_shown(n: nat)
    ensures
        first_shown(n) <= n,
        n >= 20 ==> n - first_shown(n) == 20,
        n < 20 ==> first_shown(n) == 0,
{
}

// --------------------------------------------------------------------- commands

proof fn lemma_small(s: Seq<char>)
    requires
        forall|i: int|
            0 <= i < s.len() ==> is_ascii_char(#[trigger] s[i]) && !('A' <= s[i] && s[i] <= 'Z'),
    ensures
        lower(s) == s,
{
    assert(is_ascii_text(s));
    assert(s.map_values(|c: char| ascii_lower(c)) =~= s);
}

proof fn lemma_number_plain(n: nat)
    ensures
        decimal(n).len() > 0,
        forall|i: int|
            0 <= i < decimal(n).len() ==> is_ascii_char(#[trigger] decimal(n)[i]) && !(
            'A' <= decimal(n)[i] && decimal(n)[i] <= 'Z') && !is_space(decimal(n)[i]) && is_digit(
                decimal(n)[i],
            ),
{
    lemma_numeral(n);
    assert forall|i: int| 0 <= i < decimal(n).len() implies is_ascii_char(#[trigger] decimal(n)[i])
        && !('A' <= decimal(n)[i] && decimal(n)[i] <= 'Z') && !is_space(decimal(n)[i]) && is_digit(
        decimal(n)[i],
    ) by {
        assert(is_digit(decimal(n)[i]));
    }
}

/// The number behind `:limit` becomes the limit, with the database at hand and without.
#[verifier::rlimit(50)]
pub proof fn law_limit_reads_back(n: usize)
    requires
        n <= u64::MAX,
    ensures
        embedded_command(":limit "@ + decimal(n as nat)) == MetaView::SetLimit(n),
        remote_command(":limit "@ + decimal(n as nat)) == MetaView::SetLimit(n),
{
    reveal_strlit(":limit ");
    reveal_strlit(":limit");
    let d = decimal(n as nat);
    let line = ":limit "@ + d;
    let e = Seq::<char>::empty();
    lemma_number_plain(n as nat);
    law_number_reads_back(n as u64);
    assert forall|i: int| 0 <= i < line.len() implies is_ascii_char(#[trigger] line[i]) && !('A'
        <= line[i] && line[i] <= 'Z') by {
        if i >= 7 {
            assert(line[i] == d[i - 7]);
        }
    }
    lemma_small(line);
    assert(line[0] == ':' && line.last() == d.last());
    assert(d.last() == d[d.len() - 1]);
    law_trimming_leaves_the_middle(e, line, e);
    assert(e + line + e =~= line);
    law_prefix_and_rest(line, ":limit "@, d);
    assert(d[0] == d[0]);
    law_trimming_leaves_the_middle(e, d, e);
    assert(e + d + e =~= d);
    lemma_not_fixed(line);
    let rest = seq![' '] + d;
    assert(line =~= ":limit"@ + rest);
    law_prefix_and_rest(line, ":limit"@, rest);
    assert(line.skip(6) =~= rest);
    assert(rest[0] == ' ');
    assert(!begins(rest, ":limit"@)) by {
        if begins(rest, ":limit"@) {
            assert(rest.take(6)[0] == rest[0]);
        }
    }
    reveal_with_fuel(without_prefix, 2);
    assert(without_prefix(line, ":limit"@) == rest);
    let sp = seq![' '];
    assert(is_space(' '));
    law_trimming_leaves_the_middle(sp, d, e);
    assert(sp + d + e =~= rest);
    assert(!begins(line, ":help "@)) by {
        reveal_strlit(":help ");
        if begins(line, ":help "@) {
            assert(line.take(6)[1] == line[1]);
        }
    }
}

#[verifier::rlimit(50)]
proof fn lemma_not_fixed(l: Seq<char>)
    requires
        l.len() > 7,
        l.take(7) == ":limit "@,
    ensures
        fixed_command(l) is None,
        database_command(l) is None,
{
    reveal_strlit(":limit ");
    reveal_strlit(":use simple");
    reveal_strlit(":lang simple");
    reveal_strlit(":use cypher");
    reveal_strlit(":lang cypher");
    reveal_strlit(":lang");
    reveal_strlit(":time");
    reveal_strlit(":time on");
    reveal_strlit(":time off");
    reveal_strlit(":history");
    reveal_strlit(":clear");
    reveal_strlit(":cls");
    reveal_strlit(":help");
    reveal_strlit(":nodes");
    reveal_strlit(":edges");
    reveal_strlit(":labels");
    reveal_strlit(":schema");
    reveal_strlit(":stats");
    reveal_strlit(":metrics");
    reveal_strlit(":compact");
    reveal_strlit(":seed");
    reveal_strlit(":limit");
    assert(l.take(7)[2] == l[2] && l.take(7)[1] == l[1] && l.take(7)[3] == l[3]);
}

/// Both modes of the console understand the choice of a language and of the timing, in
/// either case of letters and with white space round it.
#[verifier::rlimit(50)]
pub proof fn law_choices_are_understood(line: Seq<char>, l: Lang, on: bool)
    ensures
        trimmed(lower(line)) == ":use "@ + l.text() || trimmed(lower(line)) == ":lang "@ + l.text()
            ==> embedded_command(line) == MetaView::Use(l) && remote_command(line) == MetaView::Use(
            l,
        ),
        trimmed(lower(line)) == (if on { ":time on"@ } else { ":time off"@ }) ==> embedded_command(
            line,
        ) == MetaView::SetTiming(on) && remote_command(line) == MetaView::SetTiming(on),
{
    reveal_strlit("simple");
    reveal_strlit("cypher");
    reveal_strlit(":use ");
    reveal_strlit(":lang ");
    reveal_strlit(":use simple");
    reveal_strlit(":lang simple");
    reveal_strlit(":use cypher");
    reveal_strlit(":lang cypher");
    reveal_strlit(":lang");
    reveal_strlit(":time");
    reveal_strlit(":time on");
    reveal_strlit(":time off");
    assert(":use "@ + Lang::Simple.text() =~= ":use simple"@);
    assert(":lang "@ + Lang::Simple.text() =~= ":lang simple"@);
    assert(":use "@ + Lang::Cypher.text() =~= ":use cypher"@);
    assert(":lang "@ + Lang::Cypher.text() =~= ":lang cypher"@);
    assert(":use simple"@[5] != ":use cypher"@[5]);
    assert(":lang simple"@[6] != ":lang cypher"@[6]);
    assert(":use simple"@.len() == 11 && ":use cypher"@.len() == 11);
    assert(":lang simple"@.len() == 12 && ":lang cypher"@.len() == 12);
    assert(":time"@.len() == 5 && ":lang"@.len() == 5);
    assert(":time on"@.len() == 8 && ":time off"@.len() == 9);
}

// ---------------------------------------------------------------------- options

/// A word that names an option, with dashes before the name or not, and a word behind it
/// that does not begin with a dash set the option to that word; where no such word is
/// behind it the option is switched on. The words behind are read in the same way.
pub proof fn law_options_are_set(
    m: Map<Seq<char>, Seq<char>>,
    dashes: nat,
    key: Seq<char>,
    value: Seq<char>,
    rest: Seq<Seq<char>>,
)
    requires
        key.len() > 0,
        key[0] != '-',
        value.len() == 0 || value[0] != '-',
    ensures
        options_on(m, seq![repeated('-', dashes as int) + key, value] + rest)
            == options_on(m.insert(key, value), rest),
        rest.len() == 0 || (rest[0].len() > 0 && rest[0][0] == '-') ==> options_on(
            m,
            seq![repeated('-', dashes as int) + key] + rest,
        ) == options_on(m.insert(key, "true"@), rest),
{
    reveal_strlit("-");
    let w = repeated('-', dashes as int) + key;
    lemma_without_dashes(dashes, key);
    let a = seq![w, value] + rest;
    assert(a.skip(2) =~= rest);
    assert(!begins(value, "-"@)) by {
        if begins(value, "-"@) {
            assert(value.take(1)[0] == value[0]);
        }
    }
    let b = seq![w] + rest;
    assert(b.skip(1) =~= rest);
    if rest.len() > 0 {
        assert(b[1] == rest[0]);
        if rest[0].len() > 0 && rest[0][0] == '-' {
            assert(rest[0].take(1) =~= "-"@);
        }
    }
}

proof fn lemma_without_dashes(n: nat, key: Seq<char>)
    requires
        key.len() > 0,
        key[0] != '-',
    ensures
        without_dashes(repeated('-', n as int) + key) == key,
    decreases n,
{
    let w = repeated('-', n as int) + key;
    if n == 0 {
        assert(w =~= key);
    } else {
        lemma_without_dashes((n - 1) as nat, key);
        assert(w[0] == '-');
        assert(w.skip(1) =~= repeated('-', n - 1) + key);
    }
}

/// The console tells what is set: the number of the limit or that there is none, whether
/// the timing is on, and the name of the language.
#[verifier::rlimit(50)]
pub proof fn law_settings_are_told(n: usize, state: &ReplState)
    ensures
        n > 0 ==> shows(limit_text(n), ": "@ + decimal(n as nat) + "\n"@),
        n == 0 ==> shows(limit_text(n), "unlimited"@),
        shows(timing_text(true), "on"@),
        shows(timing_text(false), "off"@),
        local_text(MetaView::SetLimit(n), state) == Some(limit_text(n)),
        local_text(MetaView::ShowLimit, state) == Some(limit_text(state.result_limit)),
        local_text(MetaView::ShowTiming, state) == Some(timing_text(state.show_timing)),
        local_text(MetaView::ShowLang, state) matches Some(t) && shows(t, state.lang.text()),
{
    reveal_strlit("Result limit: ");
    reveal_strlit(": ");
    reveal_strlit("unlimited");
    reveal_strlit("Timing: on\n");
    reveal_strlit("Timing: off\n");
    reveal_strlit("on");
    reveal_strlit("off");
    let lead = "Result limit: "@;
    let e = Seq::<char>::empty();
    if n > 0 {
        let part = ": "@ + decimal(n as nat) + "\n"@;
        assert(limit_text(n) =~= lead.take(12) + part + e);
        lemma_shows(lead.take(12), part, e);
    } else {
        lemma_shows(lead, "unlimited"@, "\n"@);
    }
    let on = "Timing: on\n"@;
    assert(on =~= on.take(8) + "on"@ + on.skip(10));
    lemma_shows(on.take(8), "on"@, on.skip(10));
    let off = "Timing: off\n"@;
    assert(off =~= off.take(8) + "off"@ + off.skip(11));
    lemma_shows(off.take(8), "off"@, off.skip(11));
    lemma_shows("Language: "@, state.lang.text(), "\n"@);
}

/// The cities of the sample stand under consecutive numbers with their own facts, and the
/// nodes and edges that were there stay.
pub proof fn law_sample_cities(g: GraphView, first: u64, n: nat, i: int)
    requires
        first + n <= u64::MAX,
    ensures
        ({
            let h = with_cities(g, first, n);
            &&& h.edges == g.edges
            &&& 0 <= i < n ==> {
                let id = NodeId((first + i) as u64);
                &&& h.nodes.contains_key(id)
                &&& h.nodes[id].id == id
                &&& h.nodes[id].label == "City"@
                &&& h.nodes[id].properties.contains_key("name"@)
                &&& h.nodes[id].properties == city_properties(sample_city(i))
            }
            &&& forall|id: NodeId|
                !(first <= id.0 && id.0 < first + n) ==> (#[trigger] h.nodes.contains_key(id)
                    == g.nodes.contains_key(id))
        }),
    decreases n,
{
    if n > 0 {
        law_sample_cities(g, first, (n - 1) as nat, i);
    }
}

/// Each railway of the sample leads from one of its cities to another, and weighs its
/// length in kilometres; the nodes stay.
pub proof fn law_sample_rails(g: GraphView, first: u64, first_edge: u64, n: nat, i: int)
    requires
        first + CITY_COUNT <= u64::MAX,
        first_edge + n <= u64::MAX,
        0 <= i < n <= RAIL_COUNT,
    ensures
        ({
            let h = with_rails(g, first, first_edge, n);
            let id = EdgeId((first_edge + i) as u64);
            &&& h.nodes == g.nodes
            &&& h.edges.contains_key(id)
            &&& h.edges[id].id == id
            &&& h.edges[id].label == "RAIL"@
            &&& h.edges[id].source == NodeId((first + sample_rail(i).from) as u64)
            &&& h.edges[id].target == NodeId((first + sample_rail(i).to) as u64)
            &&& h.edges[id].weight == Float64::of_int(sample_rail(i).km as int)
            &&& first <= h.edges[id].source.0 && h.edges[id].source.0 < first + CITY_COUNT
            &&& first <= h.edges[id].target.0 && h.edges[id].target.0 < first + CITY_COUNT
            &&& h.edges[id].source != h.edges[id].target
        }),
    decreases n,
{
    if i < n - 1 {
        law_sample_rails(g, first, first_edge, (n - 1) as nat, i);
    } else if n > 1 {
        law_sample_rails(g, first, first_edge, (n - 1) as nat, 0);
    } else {
        reveal_with_fuel(with_rails, 2);
    }
}

/// Of the lines of a file those are run that are neither blank nor comments, which begin
/// with a number sign, whatever white space stands round them.
pub proof fn law_script_lines(a: Seq<char>, line: Seq<char>, b: Seq<char>)
    requires
        is_blank(a),
        is_blank(b),
        is_trim(line),
    ensures
        is_script_line(a + line + b) <==> line.len() > 0 && line[0] != '#',
        !is_script_line(a),
{
    let e = Seq::<char>::empty();
    law_trimming_leaves_the_middle(a, line, b);
    law_trimming_leaves_the_middle(a, e, e);
    assert(a + e + e =~= a);
}

} // verus!
