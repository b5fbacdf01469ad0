//! What is shown.
use crate::binary64::{nearest, of_int, one, Binary64};
use crate::callgraph::CallGraph;
use crate::laws::diff::law_exclusion_is_by_substring;
use crate::laws::words::law_infix;
use crate::output::{
    are_sections, breakdown, caller_lines, colour, concatenated, decimal, digit, header, matching,
    no_scores, percent, row_of, section_lines, tenths, Colour, JsonEntry, Row,
};
use crate::parser::SymbolView;
use crate::scorer::{bar, ScoreView};
use crate::text::joined;
use vstd::prelude::*;
use vstd::string::*;

verus! {

/// A number is written with the digits `0` to `9`, the last one for what remains of it when it is
/// divided by ten, and those before it for the rest.
pub proof fn law_decimal(n: nat, d: nat)
    requires
        d < 10,
    ensures
        decimal(d).len() == 1,
        decimal(d)[0] as nat == '0' as nat + d,
        n > 0 ==> decimal(10 * n + d) == decimal(n) + decimal(d),
{
    reveal_strlit("0123456789");
    assert(decimal(d) =~= seq![digit(d)]);
    if n > 0 {
        let m = 10 * n + d;
        assert(m / 10 == n && m % 10 == d);
        assert(decimal(m) =~= decimal(n) + decimal(d));
    }
}

/// A value is shown in percent, as the whole number nearest to a hundred times it, and to one
/// place, as a tenth of the whole number nearest to ten times it.
pub proof fn law_shown_values(x: Binary64)
    ensures
        percent(x) == nearest(x.times(of_int(100)).units(), one()),
        ({
            let n = nearest(10 * x.units(), one());
            tenths(x) == decimal(n / 10) + "."@ + decimal(n % 10)
        }),
{
    assert(x.units() * 10 == 10 * x.units());
}

/// What is said of a row is what its cells hold.
pub proof fn law_row(row: Row)
    ensures
        row@.symbol == row.symbol@,
        row@.callers == row.callers@,
        row@.modules == row.modules@,
        row@.uncovered == row.uncovered@,
        row@.percentile == row.percentile@,
        row@.risk == row.risk@,
        row@.colour == row.colour,
{
}

/// The row of a score shows the full name of the symbol; its direct callers, and its transitive
/// ones in brackets; the modules; the uncovered callers, and their fraction in brackets; the
/// percentile; and the label behind its bar, in its colour.
pub proof fn law_row_shows_score(s: ScoreView)
    ensures
        row_of(s).symbol == s.symbol.module + seq!['.'] + s.symbol.qualname,
        row_of(s).callers == decimal(s.direct_callers) + " ("@ + decimal(s.transitive_callers)
            + ")"@,
        row_of(s).modules == decimal(s.modules_affected),
        row_of(s).uncovered == decimal(s.uncovered_callers) + " ("@ + decimal(
            percent(s.uncovered_ratio),
        ) + "%)"@,
        row_of(s).percentile == "p"@ + decimal(percent(s.percentile)),
        row_of(s).risk == bar(s.label()) + " "@ + s.label(),
        s.label() == "HIGH"@ ==> row_of(s).colour == Colour::Red,
        s.label() == "MED"@ ==> row_of(s).colour == Colour::Yellow,
        s.label() == "LOW"@ ==> row_of(s).colour == Colour::DarkGrey,
        row_of(s).colour == colour(s.label()),
{
    reveal_strlit("HIGH");
    reveal_strlit("MED");
    reveal_strlit("LOW");
    assert("HIGH"@.len() == 4 && "MED"@.len() == 3 && "LOW"@.len() == 3);
    assert("MED"@[0] == 'M' && "LOW"@[0] == 'L');
}

/// The titles of the columns, in the order of the cells of a row.
pub proof fn law_header()
    ensures
        header().len() == 6,
        header()[0] == "SYMBOL"@,
        header()[1] == "CALLERS"@,
        header()[2] == "MODULES"@,
        header()[3] == "UNCOVERED"@,
        header()[4] == "PERCENTILE"@,
        header()[5] == "RISK"@,
        no_scores() == "No changed symbols found."@,
{
}

/// A breakdown starts with a title. Each score adds the full name of its symbol, a line that spells
/// out what it says, and an empty line.
pub proof fn law_breakdown(scores: Seq<ScoreView>, s: ScoreView)
    ensures
        breakdown(Seq::empty()) == seq![""@, "--- Detailed caller breakdown ---"@, ""@],
        breakdown(scores.push(s)) == breakdown(scores) + seq![
            s.symbol.module + seq!['.'] + s.symbol.qualname + ":"@,
            "  Direct: "@ + decimal(s.direct_callers) + ", Transitive: "@ + decimal(
                s.transitive_callers,
            ) + ", Percentile: p"@ + decimal(percent(s.percentile)) + ", Uncovered: "@ + decimal(
                s.uncovered_callers,
            ) + "/"@ + decimal(s.transitive_callers) + " ("@ + decimal(percent(s.uncovered_ratio))
                + "%), Score: "@ + tenths(s.score),
            ""@,
        ],
{
    assert(scores.push(s).drop_last() =~= scores);
    assert(s.symbol.full_name() =~= s.symbol.module + seq!['.'] + s.symbol.qualname);
}

/// An entry for other programs says what a score says exactly where it holds the full name, the
/// module, the file and the line of its symbol, its numbers and its label.
pub proof fn law_entry(entry: JsonEntry, s: ScoreView)
    ensures
        entry.tells(s) <==> entry.symbol@ == s.symbol.module + seq!['.'] + s.symbol.qualname
            && entry.module@ == s.symbol.module && entry.file@ == s.symbol.file && entry.line
            == s.symbol.line && entry.direct_callers == s.direct_callers && entry.transitive_callers
            == s.transitive_callers && entry.modules_affected == s.modules_affected
            && entry.uncovered_callers == s.uncovered_callers && entry.uncovered_ratio
            == s.uncovered_ratio && entry.percentile == s.percentile && entry.score == s.score
            && entry.risk@ == s.label(),
{
    assert(s.symbol.full_name() =~= s.symbol.module + seq!['.'] + s.symbol.qualname);
}

/// Lists of lines are shown one behind the other.
pub proof fn law_concatenated(
    a: Seq<Seq<Seq<char>>>,
    b: Seq<Seq<Seq<char>>>,
    x: Seq<Seq<char>>,
)
    ensures
        concatenated(Seq::empty()).len() == 0,
        concatenated(seq![x]) == x,
        concatenated(a + b) == concatenated(a) + concatenated(b),
    decreases b.len(),
{
    let one = seq![x];
    let empty = Seq::<Seq<Seq<char>>>::empty();
    assert(one.drop_last() =~= empty);
    assert(concatenated(empty) =~= Seq::empty());
    assert(concatenated(one) =~= x);
    if b.len() == 0 {
        assert(a + b =~= a);
        assert(concatenated(a + b) =~= concatenated(a) + concatenated(b));
    } else {
        law_concatenated(a, b.drop_last(), x);
        assert((a + b).drop_last() =~= a + b.drop_last());
        assert(concatenated(a + b) =~= concatenated(a) + concatenated(b));
    }
}

/// A caller is shown by its file, line and module, and with a line more, where the chain of calls
/// to it has a name between the two ends: the names of the chain, the caller first.
pub proof fn law_caller_lines(caller: SymbolView, chain: Seq<Seq<char>>)
    ensures
        caller_lines(caller, chain)[0] == "  "@ + caller.file + ":"@ + decimal(caller.line)
            + "  ["@ + caller.module + "]"@,
        chain.len() <= 2 ==> caller_lines(caller, chain).len() == 1,
        chain.len() > 2 ==> caller_lines(caller, chain).len() == 2 && caller_lines(caller, chain)[1]
            == "    chain: "@ + joined(
            Seq::new(chain.len(), |i: int| chain[chain.len() - 1 - i]),
            " calls "@,
        ),
{
    assert(chain.reverse() =~= Seq::new(chain.len(), |i: int| chain[chain.len() - 1 - i]));
}

/// A section starts with the full name and the number of the callers, and ends with an empty line.
/// Between them stand the lines of each caller, in order; where there are none, a line that says
/// so.
pub proof fn law_section_lines(
    full: Seq<char>,
    callers: Seq<SymbolView>,
    chains: Seq<Seq<Seq<char>>>,
    caller: SymbolView,
    chain: Seq<Seq<char>>,
)
    requires
        chains.len() == callers.len(),
    ensures
        ({
            let none = section_lines(full, Seq::empty(), Seq::empty());
            &&& none.len() == 3
            &&& none[0] == full + "  ("@ + decimal(0) + " uncovered callers)"@
            &&& none[1] == "  (all callers are covered by tests)"@
            &&& none[2] == ""@
        }),
        ({
            let lines = section_lines(full, callers, chains);
            let more = section_lines(full, callers.push(caller), chains.push(chain));
            let before = if callers.len() == 0 {
                Seq::empty()
            } else {
                lines.subrange(1, lines.len() - 1)
            };
            more == seq![
                full + "  ("@ + decimal(callers.len() + 1) + " uncovered callers)"@,
            ] + before + caller_lines(caller, chain) + seq![""@]
        }),
{
    let (more, more_chains) = (callers.push(caller), chains.push(chain));
    let parts = Seq::new(callers.len(), |i: int| caller_lines(callers[i], chains[i]));
    let more_parts = Seq::new(more.len(), |i: int| caller_lines(more[i], more_chains[i]));
    assert(more_parts.drop_last() =~= parts);
    assert(more_parts.last() == caller_lines(caller, chain));
    let lines = section_lines(full, callers, chains);
    if callers.len() > 0 {
        assert(lines.subrange(1, lines.len() - 1) =~= concatenated(parts));
    } else {
        assert(concatenated(parts) =~= Seq::empty());
    }
    let before = if callers.len() == 0 {
        Seq::empty()
    } else {
        lines.subrange(1, lines.len() - 1)
    };
    assert(section_lines(full, more, more_chains) =~= seq![
        full + "  ("@ + decimal(callers.len() + 1) + " uncovered callers)"@,
    ] + before + caller_lines(caller, chain) + seq![""@]);
}

/// Of the affected names, those are shown that are known, stand in a module without tests, and in
/// no file whose path holds an excluded pattern. They are shown in the order of the list.
pub proof fn law_shown(
    graph: &CallGraph,
    radius: Seq<(Seq<char>, nat)>,
    name: Seq<char>,
    d: nat,
    tests: Set<Seq<char>>,
    exclude: Seq<Seq<char>>,
)
    ensures
        graph.shown(Seq::empty(), tests, exclude).len() == 0,
        ({
            let table = graph.table();
            let shows = table.contains_key(name) && !tests.contains(table[name].module) && !exists|
                i: int,
                a: Seq<char>,
                b: Seq<char>,
            |
                0 <= i < exclude.len() && table[name].file == #[trigger] (a + exclude[i] + b);
            &&& graph.shows(name, tests, exclude) <==> shows
            &&& shows ==> graph.shown(radius.push((name, d)), tests, exclude) == graph.shown(
                radius,
                tests,
                exclude,
            ).push(table[name])
            &&& !shows ==> graph.shown(radius.push((name, d)), tests, exclude) == graph.shown(
                radius,
                tests,
                exclude,
            )
        }),
{
    law_exclusion_is_by_substring(graph.table()[name].file, exclude);
    assert(radius.push((name, d)).drop_last() =~= radius);
}

/// The section of a symbol lists the callers that its blast radius lists and that are shown, each
/// with a shortest chain of calls to it.
pub proof fn law_section(
    graph: &CallGraph,
    lines: Seq<Seq<char>>,
    full: Seq<char>,
    tests: Set<Seq<char>>,
    exclude: Seq<Seq<char>>,
)
    requires
        graph.is_section(lines, full, tests, exclude),
    ensures
        exists|radius: Seq<(Seq<char>, nat)>, chains: Seq<Seq<Seq<char>>>|
            #![trigger graph.is_radius(full, radius), chains.len()]
            {
                let callers = graph.shown(radius, tests, exclude);
                &&& graph.is_radius(full, radius)
                &&& chains.len() == callers.len()
                &&& lines == section_lines(full, callers, chains)
                &&& forall|i: int|
                    0 <= i < callers.len() ==> graph.is_shortest_chain(
                        full,
                        (#[trigger] callers[i]).module + seq!['.'] + callers[i].qualname,
                        chains[i],
                    )
            },
{
    let (radius, chains) = choose|
        radius: Seq<(Seq<char>, nat)>,
        chains: Seq<Seq<Seq<char>>>,
    |
        graph.is_section_of(lines, full, tests, exclude, radius, chains);
    let callers = graph.shown(radius, tests, exclude);
    assert forall|i: int| 0 <= i < callers.len() implies graph.is_shortest_chain(
        full,
        (#[trigger] callers[i]).module + seq!['.'] + callers[i].qualname,
        chains[i],
    ) by {
        assert(callers[i].full_name() =~= callers[i].module + seq!['.'] + callers[i].qualname);
        assert(graph.is_shortest_chain(full, callers[i].full_name(), chains[i]));
    }
    assert(graph.is_radius(full, radius) && chains.len() == callers.len());
}

/// The symbols that match a pattern are those whose full name holds it anywhere: with something
/// before it and something behind it, be it nothing. They keep their order.
pub proof fn law_matching(scores: Seq<ScoreView>, s: ScoreView, pattern: Seq<char>)
    ensures
        matching(Seq::empty(), pattern).len() == 0,
        ({
            let full = s.symbol.module + seq!['.'] + s.symbol.qualname;
            let matches = exists|a: Seq<char>, b: Seq<char>| full == #[trigger] (a + pattern + b);
            matching(scores.push(s), pattern) == if matches {
                matching(scores, pattern).push(full)
            } else {
                matching(scores, pattern)
            }
        }),
{
    let full = s.symbol.module + seq!['.'] + s.symbol.qualname;
    assert(s.symbol.full_name() =~= full);
    law_infix(full, pattern);
    assert(scores.push(s).drop_last() =~= scores);
}

/// A score is among those that match a pattern exactly where the pattern stands somewhere in its
/// full name.
pub proof fn law_matched_names(scores: Seq<ScoreView>, pattern: Seq<char>, name: Seq<char>)
    ensures
        matching(scores, pattern).contains(name) <==> (exists|a: Seq<char>, b: Seq<char>|
            name == #[trigger] (a + pattern + b)) && exists|i: int|
            0 <= i < scores.len() && name == (#[trigger] scores[i]).symbol.module + seq!['.']
                + scores[i].symbol.qualname,
    decreases scores.len(),
{
    if scores.len() > 0 {
        let (front, last) = (scores.drop_last(), scores.last());
        let full = last.symbol.module + seq!['.'] + last.symbol.qualname;
        law_matched_names(front, pattern, name);
        law_matching(front, last, pattern);
        assert(front.push(last) =~= scores);
        let before = matching(front, pattern);
        assert(before.push(full).contains(name) <==> before.contains(name) || name == full) by {
            assert(before.push(full)[before.len() as int] == full);
            if before.contains(name) {
                let k = choose|k: int| 0 <= k < before.len() && before[k] == name;
                assert(before.push(full)[k] == name);
            }
            if before.push(full).contains(name) {
                let k = choose|k: int|
                    0 <= k < before.push(full).len() && before.push(full)[k] == name;
                if k < before.len() {
                    assert(before[k] == name);
                }
            }
        }
        if exists|i: int|
            0 <= i < front.len() && name == (#[trigger] front[i]).symbol.module + seq!['.']
                + front[i].symbol.qualname {
            let i = choose|i: int|
                0 <= i < front.len() && name == (#[trigger] front[i]).symbol.module + seq!['.']
                    + front[i].symbol.qualname;
            assert(scores[i] == front[i]);
        }
        if exists|i: int|
            0 <= i < scores.len() && name == (#[trigger] scores[i]).symbol.module + seq!['.']
                + scores[i].symbol.qualname {
            let i = choose|i: int|
                0 <= i < scores.len() && name == (#[trigger] scores[i]).symbol.module + seq!['.']
                    + scores[i].symbol.qualname;
            if i < front.len() {
                assert(front[i] == scores[i]);
            } else {
                assert(scores[i] == last);
            }
        }
        if name == full {
            assert(scores[scores.len() - 1] == last);
        }
    }
}

/// There is one section for each symbol that is shown, in order.
pub proof fn law_sections(
    sections: Seq<Seq<Seq<char>>>,
    names: Seq<Seq<char>>,
    section: Seq<Seq<char>>,
    name: Seq<char>,
    graph: &CallGraph,
    tests: Set<Seq<char>>,
    exclude: Seq<Seq<char>>,
)
    ensures
        are_sections(sections, Seq::empty(), graph, tests, exclude) <==> sections.len() == 0,
        are_sections(sections.push(section), names.push(name), graph, tests, exclude)
            <==> are_sections(sections, names, graph, tests, exclude) && graph.is_section(
            section,
            name,
            tests,
            exclude,
        ),
{
    let (more, more_names) = (sections.push(section), names.push(name));
    if are_sections(more, more_names, graph, tests, exclude) {
        assert(more[sections.len() as int] == section);
        assert forall|i: int| 0 <= i < sections.len() implies graph.is_section(
            #[trigger] sections[i],
            names[i],
            tests,
            exclude,
        ) by {
            assert(more[i] == sections[i] && more_names[i] == names[i]);
        }
    }
}

} // verus!
