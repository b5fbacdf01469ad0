//! What is shown of the scores.
use crate::binary64::{
    lemma_size, lemma_times, nearest, of_int, one, Binary64, LEAST_MANTISSA,
};
use crate::callgraph::{is_excluded, matches_any, radius_view, CallGraph};
use crate::names::NameSet;
use crate::parser::{Symbol, SymbolView};
use crate::scorer::{bar, score_views, RiskScore, ScoreView};
use crate::text::{contains, has_infix, join, joined, views};
use vstd::prelude::*;
use vstd::string::*;

verus! {

/// The digit for `d`, from 0 to 9.
pub open spec fn digit(d: nat) -> char {
    "0123456789"@[d as int]
}

/// The decimal digits of `n`.
pub open spec fn decimal(n: nat) -> Seq<char>
    decreases n,
{
    if n < 10 {
        seq![digit(n)]
    } else {
        decimal(n / 10).push(digit(n % 10))
    }
}

/// The decimal digits of `n`.
pub fn decimal_of(n: u64) -> (r: String)
    ensures
        r@ == decimal(n as nat),
    decreases n,
{
    proof {
        reveal_strlit("0123456789");
    }
    let last = "0123456789".get_char((n % 10) as usize);
    let mut r = if n < 10 {
        String::new()
    } else {
        decimal_of(n / 10)
    };
    r.push(last);
    assert(n < 10 ==> r@ =~= seq![last]);
    r
}

/// `x` in percent, to the nearest whole number.
pub open spec fn percent(x: Binary64) -> nat {
    nearest(x.times(of_int(100)).units(), one())
}

/// `x` in percent, to the nearest whole number.
pub fn percent_of(x: Binary64) -> (r: u64)
    requires
        x.is_within(400),
        x.units() <= one(),
    ensures
        r == percent(x),
{
    let hundredfold = x.multiply(Binary64::from_usize(100));
    proof {
        lemma_size(x);
        lemma_times(x, x, 100);
        let w = one();
        assert(100 * w <= LEAST_MANTISSA * w) by (nonlinear_arith);
    }
    assert(hundredfold.units() * 1 == hundredfold.units());
    hundredfold.nearest_multiple(1)
}

/// `x` to one place behind the decimal point.
pub open spec fn tenths(x: Binary64) -> Seq<char> {
    let n = nearest(x.units() * 10, one());
    decimal(n / 10) + "."@ + decimal(n % 10)
}

/// `x` to one place behind the decimal point.
pub fn tenths_of(x: Binary64) -> (r: String)
    requires
        x.is_canonical(),
        x.units() <= 100 * one(),
    ensures
        r@ == tenths(x),
{
    proof {
        let w = one();
        assert(100 * w <= LEAST_MANTISSA * w) by (nonlinear_arith);
    }
    let n = x.nearest_multiple(10);
    let mut r = decimal_of(n / 10);
    r.append(".");
    r.append(decimal_of(n % 10).as_str());
    r
}

/// The colour that a risk is shown in.
#[derive(Debug, Clone, Copy, PartialEq, Eq, Structural)]
pub enum Colour {
    Red,
    Yellow,
    DarkGrey,
}

/// The colour that goes with a label.
pub open spec fn colour(label: Seq<char>) -> Colour {
    if label == "HIGH"@ {
        Colour::Red
    } else if label == "MED"@ {
        Colour::Yellow
    } else {
        Colour::DarkGrey
    }
}

/// A row of the table of scores.
#[derive(Debug)]
pub struct Row {
    pub symbol: String,
    pub callers: String,
    pub modules: String,
    pub uncovered: String,
    pub percentile: String,
    pub risk: String,
    pub colour: Colour,
}

/// What a [`Row`] shows.
pub struct RowView {
    pub symbol: Seq<char>,
    pub callers: Seq<char>,
    pub modules: Seq<char>,
    pub uncovered: Seq<char>,
    pub percentile: Seq<char>,
    pub risk: Seq<char>,
    pub colour: Colour,
}

impl View for Row {
    type V = RowView;

    open spec fn view(&self) -> RowView {
        RowView {
            symbol: self.symbol@,
            callers: self.callers@,
            modules: self.modules@,
            uncovered: self.uncovered@,
            percentile: self.percentile@,
            risk: self.risk@,
            colour: self.colour,
        }
    }
}

/// The row that shows `s`.
pub open spec fn row_of(s: ScoreView) -> RowView {
    RowView {
        symbol: s.symbol.full_name(),
        callers: decimal(s.direct_callers) + " ("@ + decimal(s.transitive_callers) + ")"@,
        modules: decimal(s.modules_affected),
        uncovered: decimal(s.uncovered_callers) + " ("@ + decimal(percent(s.uncovered_ratio))
            + "%)"@,
        percentile: "p"@ + decimal(percent(s.percentile)),
        risk: bar(s.label()) + " "@ + s.label(),
        colour: colour(s.label()),
    }
}

/// The row that shows `s`.
pub fn table_row(s: &RiskScore) -> (r: Row)
    requires
        s.is_valid(),
    ensures
        r@ == row_of(s@),
{
    let mut callers = decimal_of(s.direct_callers as u64);
    callers.append(" (");
    callers.append(decimal_of(s.transitive_callers as u64).as_str());
    callers.append(")");
    let modules = decimal_of(s.modules_affected as u64);
    let mut uncovered = decimal_of(s.uncovered_callers as u64);
    uncovered.append(" (");
    uncovered.append(decimal_of(percent_of(s.uncovered_ratio)).as_str());
    uncovered.append("%)");
    let mut percentile = "p".to_owned();
    percentile.append(decimal_of(percent_of(s.percentile)).as_str());
    let label = s.risk_label();
    let mut risk = s.risk_bar().to_owned();
    risk.append(" ");
    risk.append(label);
    let colour = if *label == *"HIGH" {
        Colour::Red
    } else if *label == *"MED" {
        Colour::Yellow
    } else {
        Colour::DarkGrey
    };
    Row { symbol: s.symbol.full_name(), callers, modules, uncovered, percentile, risk, colour }
}

/// The titles of the columns of the table.
pub open spec fn header() -> Seq<Seq<char>> {
    seq!["SYMBOL"@, "CALLERS"@, "MODULES"@, "UNCOVERED"@, "PERCENTILE"@, "RISK"@]
}

/// The titles of the columns of the table.
pub fn table_header() -> (r: Vec<String>)
    ensures
        views(r@) == header(),
{
    let mut r: Vec<String> = Vec::new();
    r.push("SYMBOL".to_owned());
    r.push("CALLERS".to_owned());
    r.push("MODULES".to_owned());
    r.push("UNCOVERED".to_owned());
    r.push("PERCENTILE".to_owned());
    r.push("RISK".to_owned());
    assert(views(r@) =~= header());
    r
}

/// The line that spells out what `s` says.
pub open spec fn detail_of(s: ScoreView) -> Seq<char> {
    "  Direct: "@ + decimal(s.direct_callers) + ", Transitive: "@ + decimal(s.transitive_callers)
        + ", Percentile: p"@ + decimal(percent(s.percentile)) + ", Uncovered: "@ + decimal(
        s.uncovered_callers,
    ) + "/"@ + decimal(s.transitive_callers) + " ("@ + decimal(percent(s.uncovered_ratio))
        + "%), Score: "@ + tenths(s.score)
}

/// The line that spells out what `s` says.
pub fn detail_line(s: &RiskScore) -> (r: String)
    requires
        s.is_valid(),
    ensures
        r@ == detail_of(s@),
{
    let mut r = "  Direct: ".to_owned();
    r.append(decimal_of(s.direct_callers as u64).as_str());
    r.append(", Transitive: ");
    r.append(decimal_of(s.transitive_callers as u64).as_str());
    r.append(", Percentile: p");
    r.append(decimal_of(percent_of(s.percentile)).as_str());
    r.append(", Uncovered: ");
    r.append(decimal_of(s.uncovered_callers as u64).as_str());
    r.append("/");
    r.append(decimal_of(s.transitive_callers as u64).as_str());
    r.append(" (");
    r.append(decimal_of(percent_of(s.uncovered_ratio)).as_str());
    r.append("%), Score: ");
    r.append(tenths_of(s.score).as_str());
    r
}

/// The breakdown of all scores: a title, and for each score the symbol, a line that spells out
/// what it says, and an empty line.
pub open spec fn breakdown(scores: Seq<ScoreView>) -> Seq<Seq<char>>
    decreases scores.len(),
{
    if scores.len() == 0 {
        seq![""@, "--- Detailed caller breakdown ---"@, ""@]
    } else {
        breakdown(scores.drop_last()) + seq![
            scores.last().symbol.full_name() + ":"@,
            detail_of(scores.last()),
            ""@,
        ]
    }
}

/// What is shown of the scores: where there are none, a message; else a table, and, where more
/// was asked for, the lines of a breakdown.
#[derive(Debug)]
pub struct TableText {
    pub message: Option<String>,
    pub rows: Vec<Row>,
    pub details: Vec<String>,
}

/// The message where there are no scores.
pub open spec fn no_scores() -> Seq<char> {
    "No changed symbols found."@
}

/// Shows the scores as a table, followed by a breakdown where `verbose` asks for it.
pub fn render_table(scores: &[RiskScore], verbose: bool) -> (r: TableText)
    requires
        forall|i: int| 0 <= i < scores@.len() ==> (#[trigger] scores@[i]).is_valid(),
    ensures
        match r.message {
            Some(message) => scores@.len() == 0 && message@ == no_scores(),
            None => scores@.len() > 0,
        },
        r.rows@.map_values(|row: Row| row@) == score_views(scores@).map_values(
            |s: ScoreView| row_of(s),
        ),
        views(r.details@) == if verbose && scores@.len() > 0 {
            breakdown(score_views(scores@))
        } else {
            Seq::empty()
        },
{
    let mut rows: Vec<Row> = Vec::new();
    let mut details: Vec<String> = Vec::new();
    let ghost all = score_views(scores@);
    let ghost expected = all.map_values(|s: ScoreView| row_of(s));
    if scores.is_empty() {
        assert(rows@.map_values(|row: Row| row@) =~= expected);
        assert(views(details@) =~= Seq::empty());
        return TableText { message: Some("No changed symbols found.".to_owned()), rows, details };
    }
    if verbose {
        details.push("".to_owned());
        details.push("--- Detailed caller breakdown ---".to_owned());
        details.push("".to_owned());
    }
    let mut i: usize = 0;
    proof {
        assert(rows@.map_values(|row: Row| row@) =~= expected.take(0));
        assert(verbose ==> views(details@) =~= breakdown(all.take(0)));
        assert(!verbose ==> views(details@) =~= Seq::empty());
    }
    while i < scores.len()
        invariant
            i <= scores@.len(),
            all == score_views(scores@),
            expected == all.map_values(|s: ScoreView| row_of(s)),
            forall|k: int| 0 <= k < scores@.len() ==> (#[trigger] scores@[k]).is_valid(),
            rows@.map_values(|row: Row| row@) == expected.take(i as int),
            views(details@) == if verbose {
                breakdown(all.take(i as int))
            } else {
                Seq::empty()
            },
        decreases scores@.len() - i,
    {
        let s = &scores[i];
        let ghost details_before = details@;
        let row = table_row(s);
        assert(expected.take(i + 1) =~= expected.take(i as int).push(row@));
        rows.push(row);
        assert(rows@.map_values(|row: Row| row@) =~= expected.take(i + 1));
        if verbose {
            let mut title = s.symbol.full_name();
            title.append(":");
            details.push(title);
            details.push(detail_line(s));
            details.push("".to_owned());
            proof {
                let now = all.take(i + 1);
                assert(now.drop_last() =~= all.take(i as int));
                assert(now.last() == s@);
                assert(views(details@) =~= views(details_before) + seq![
                    s@.symbol.full_name() + ":"@,
                    detail_of(s@),
                    ""@,
                ]);
            }
        }
        i += 1;
    }
    proof {
        assert(expected.take(i as int) =~= expected);
        assert(all.take(i as int) =~= all);
    }
    TableText { message: None, rows, details }
}

/// What is written of a score for other programs to read.
#[derive(Debug)]
pub struct JsonEntry {
    pub symbol: String,
    pub module: String,
    pub file: String,
    pub line: usize,
    pub direct_callers: usize,
    pub transitive_callers: usize,
    pub modules_affected: usize,
    pub uncovered_callers: usize,
    pub uncovered_ratio: Binary64,
    pub percentile: Binary64,
    pub score: Binary64,
    pub risk: String,
}

impl JsonEntry {
    /// The entry says what `s` says.
    pub open spec fn tells(&self, s: ScoreView) -> bool {
        &&& self.symbol@ == s.symbol.full_name()
        &&& self.module@ == s.symbol.module
        &&& self.file@ == s.symbol.file
        &&& self.line == s.symbol.line
        &&& self.direct_callers == s.direct_callers
        &&& self.transitive_callers == s.transitive_callers
        &&& self.modules_affected == s.modules_affected
        &&& self.uncovered_callers == s.uncovered_callers
        &&& self.uncovered_ratio == s.uncovered_ratio
        &&& self.percentile == s.percentile
        &&& self.score == s.score
        &&& self.risk@ == s.label()
    }
}

/// What is written of the scores for other programs to read, in their order.
pub fn render_json(scores: &[RiskScore]) -> (r: Vec<JsonEntry>)
    requires
        forall|i: int|
            0 <= i < scores@.len() ==> (#[trigger] scores@[i]).percentile.is_canonical()
                && scores@[i].uncovered_ratio.is_canonical(),
    ensures
        r@.len() == scores@.len(),
        forall|i: int| 0 <= i < r@.len() ==> (#[trigger] r@[i]).tells(scores@[i]@),
{
    let mut r: Vec<JsonEntry> = Vec::new();
    let mut i: usize = 0;
    while i < scores.len()
        invariant
            i <= scores@.len(),
            r@.len() == i,
            forall|k: int|
                0 <= k < scores@.len() ==> (#[trigger] scores@[k]).percentile.is_canonical()
                    && scores@[k].uncovered_ratio.is_canonical(),
            forall|k: int| 0 <= k < i ==> (#[trigger] r@[k]).tells(scores@[k]@),
        decreases scores@.len() - i,
    {
        let s = &scores[i];
        r.push(
            JsonEntry {
                symbol: s.symbol.full_name(),
                module: s.symbol.module.clone(),
                file: s.symbol.file.clone(),
                line: s.symbol.line,
                direct_callers: s.direct_callers,
                transitive_callers: s.transitive_callers,
                modules_affected: s.modules_affected,
                uncovered_callers: s.uncovered_callers,
                uncovered_ratio: s.uncovered_ratio,
                percentile: s.percentile,
                score: s.score,
                risk: s.risk_label().to_owned(),
            },
        );
        i += 1;
    }
    r
}

/// All elements of the sequences of `parts`, one sequence after the other.
pub open spec fn concatenated(parts: Seq<Seq<Seq<char>>>) -> Seq<Seq<char>>
    decreases parts.len(),
{
    if parts.len() == 0 {
        Seq::empty()
    } else {
        concatenated(parts.drop_last()) + parts.last()
    }
}

/// The lines that show a caller: where it stands, and, where it is no direct caller, the chain
/// of calls from it down to the changed symbol. `chain` is that chain, from the symbol up.
pub open spec fn caller_lines(caller: SymbolView, chain: Seq<Seq<char>>) -> Seq<Seq<char>> {
    let place = "  "@ + caller.file + ":"@ + decimal(caller.line) + "  ["@ + caller.module + "]"@;
    if chain.len() <= 2 {
        seq![place]
    } else {
        seq![place, "    chain: "@ + joined(chain.reverse(), " calls "@)]
    }
}

/// The lines that show the uncovered `callers` of the symbol `full`, with the chain of calls to
/// each.
pub open spec fn section_lines(
    full: Seq<char>,
    callers: Seq<SymbolView>,
    chains: Seq<Seq<Seq<char>>>,
) -> Seq<Seq<char>> {
    let title = full + "  ("@ + decimal(callers.len()) + " uncovered callers)"@;
    let body = concatenated(
        Seq::new(callers.len(), |i: int| caller_lines(callers[i], chains[i])),
    );
    if callers.len() == 0 {
        seq![title, "  (all callers are covered by tests)"@, ""@]
    } else {
        seq![title] + body + seq![""@]
    }
}

impl CallGraph {
    /// The name is one of a symbol of an untested module, in no excluded file.
    pub open spec fn shows(
        &self,
        name: Seq<char>,
        tests: Set<Seq<char>>,
        exclude: Seq<Seq<char>>,
    ) -> bool {
        self.is_uncovered(name, tests) && !matches_any(self.table()[name].file, exclude)
    }

    /// The symbols that are shown out of those that `radius` lists.
    pub open spec fn shown(
        &self,
        radius: Seq<(Seq<char>, nat)>,
        tests: Set<Seq<char>>,
        exclude: Seq<Seq<char>>,
    ) -> Seq<SymbolView>
        decreases radius.len(),
    {
        if radius.len() == 0 {
            Seq::empty()
        } else {
            let before = self.shown(radius.drop_last(), tests, exclude);
            let name = radius.last().0;
            if self.shows(name, tests, exclude) {
                before.push(self.table()[name])
            } else {
                before
            }
        }
    }

    /// `lines` show the uncovered callers of the symbol `full`: those that `radius` lists, a list
    /// of all callers of `full`, with `chains` from it to them.
    pub open spec fn is_section_of(
        &self,
        lines: Seq<Seq<char>>,
        full: Seq<char>,
        tests: Set<Seq<char>>,
        exclude: Seq<Seq<char>>,
        radius: Seq<(Seq<char>, nat)>,
        chains: Seq<Seq<Seq<char>>>,
    ) -> bool {
        let callers = self.shown(radius, tests, exclude);
        &&& self.is_radius(full, radius)
        &&& chains.len() == callers.len()
        &&& forall|i: int|
            0 <= i < chains.len() ==> self.is_shortest_chain(
                full,
                callers[i].full_name(),
                #[trigger] chains[i],
            )
        &&& lines == section_lines(full, callers, chains)
    }

    /// `lines` show the uncovered callers of the symbol `full`.
    pub open spec fn is_section(
        &self,
        lines: Seq<Seq<char>>,
        full: Seq<char>,
        tests: Set<Seq<char>>,
        exclude: Seq<Seq<char>>,
    ) -> bool {
        exists|radius: Seq<(Seq<char>, nat)>, chains: Seq<Seq<Seq<char>>>|
            self.is_section_of(lines, full, tests, exclude, radius, chains)
    }
}

fn push_caller(
    lines: &mut Vec<String>,
    caller: &Symbol,
    chain: &Vec<String>,
)
    ensures
        views(final(lines)@) == views(old(lines)@) + caller_lines(caller@, views(chain@)),
{
    let ghost before = views(lines@);
    let mut place = "  ".to_owned();
    place.append(caller.file.as_str());
    place.append(":");
    place.append(decimal_of(caller.line as u64).as_str());
    place.append("  [");
    place.append(caller.module.as_str());
    place.append("]");
    lines.push(place);
    if chain.len() > 2 {
        let mut steps: Vec<String> = Vec::new();
        let mut i: usize = chain.len();
        while i > 0
            invariant
                i <= chain@.len(),
                steps@.len() == chain@.len() - i,
                forall|k: int|
                    0 <= k < steps@.len() ==> (#[trigger] steps@[k])@ == chain@[chain@.len() - 1
                        - k]@,
            decreases i,
        {
            i -= 1;
            steps.push(chain[i].clone());
        }
        assert(views(steps@) =~= views(chain@).reverse());
        let mut shown = "    chain: ".to_owned();
        shown.append(join(&steps, " calls ").as_str());
        lines.push(shown);
    }
    assert(views(lines@) =~= before + caller_lines(caller@, views(chain@)));
}

/// The lines that show the uncovered callers of the symbol `full`.
pub fn uncovered_section(
    full: &str,
    graph: &CallGraph,
    test_modules: &NameSet,
    exclude: &[String],
) -> (r: Vec<String>)
    ensures
        graph.is_section(views(r@), full@, test_modules@, views(exclude@)),
{
    let radius = graph.blast_radius(full);
    let ghost rv = radius_view(radius@);
    let ghost tests = test_modules@;
    let ghost ex = views(exclude@);
    let mut body: Vec<String> = Vec::new();
    let mut count: u64 = 0;
    let ghost mut chains: Seq<Seq<Seq<char>>> = Seq::empty();
    let mut i: usize = 0;
    proof {
        assert(views(body@) =~= concatenated(Seq::<Seq<Seq<char>>>::new(0, |i: int| Seq::empty())));
        assert(Seq::<Seq<Seq<char>>>::new(0, |i: int| Seq::empty()) =~= Seq::new(
            0,
            |i: int| caller_lines(graph.shown(rv.take(0), tests, ex)[i], chains[i]),
        ));
    }
    while i < radius.len()
        invariant
            i <= radius@.len(),
            rv == radius_view(radius@),
            tests == test_modules@,
            ex == views(exclude@),
            count <= i,
            count == graph.shown(rv.take(i as int), tests, ex).len(),
            chains.len() == count,
            forall|k: int|
                0 <= k < chains.len() ==> graph.is_shortest_chain(
                    full@,
                    graph.shown(rv.take(i as int), tests, ex)[k].full_name(),
                    #[trigger] chains[k],
                ),
            views(body@) == concatenated(
                Seq::new(
                    count as nat,
                    |k: int| caller_lines(graph.shown(rv.take(i as int), tests, ex)[k], chains[k]),
                ),
            ),
        decreases radius@.len() - i,
    {
        let name = radius[i].0.as_str();
        let ghost before = graph.shown(rv.take(i as int), tests, ex);
        let ghost after = graph.shown(rv.take(i + 1), tests, ex);
        let ghost chains_before = chains;
        let ghost parts = Seq::new(
            count as nat,
            |k: int| caller_lines(before[k], chains_before[k]),
        );
        proof {
            assert(rv.take(i + 1).drop_last() =~= rv.take(i as int));
            assert(rv.take(i + 1).last().0 == name@);
        }
        if let Some(caller) = graph.symbols.get(name) {
            assert(graph.table()[name@] == caller@);
            if !test_modules.contains(caller.module.as_str()) && !is_excluded(
                caller.file.as_str(),
                exclude,
            ) {
                let caller_full = caller.full_name();
                let chain = graph.call_chain(full, caller_full.as_str());
                push_caller(&mut body, caller, &chain);
                count += 1;
                proof {
                    chains = chains.push(views(chain@));
                    let now = Seq::new(
                        count as nat,
                        |k: int| caller_lines(after[k], chains[k]),
                    );
                    assert(after == before.push(caller@));
                    assert(now.drop_last() =~= parts);
                    assert(now.last() == caller_lines(caller@, views(chain@)));
                }
            }
        }
        i += 1;
    }
    let mut r: Vec<String> = Vec::new();
    let mut title = full.to_owned();
    title.append("  (");
    title.append(decimal_of(count).as_str());
    title.append(" uncovered callers)");
    let ghost first = title@;
    r.push(title);
    assert(views(r@) =~= seq![first]);
    let ghost callers = graph.shown(rv, tests, ex);
    proof {
        assert(rv.take(i as int) =~= rv);
        let parts = Seq::new(callers.len(), |k: int| caller_lines(callers[k], chains[k]));
        assert(parts =~= Seq::new(
            count as nat,
            |k: int| caller_lines(graph.shown(rv.take(i as int), tests, ex)[k], chains[k]),
        ));
        assert(views(body@) == concatenated(parts));
    }
    if count == 0 {
        r.push("  (all callers are covered by tests)".to_owned());
    } else {
        append_lines(&mut r, &body);
    }
    let ghost so_far = views(r@);
    r.push("".to_owned());
    assert(views(r@) =~= so_far.push(""@));
    proof {
        if count > 0 {
            assert(views(r@) =~= seq![first] + views(body@) + seq![""@]);
        } else {
            assert(views(r@) =~= seq![first, "  (all callers are covered by tests)"@, ""@]);
        }
        assert(graph.is_section_of(views(r@), full@, tests, ex, rv, chains));
    }
    r
}

fn append_lines(lines: &mut Vec<String>, more: &Vec<String>)
    ensures
        views(final(lines)@) == views(old(lines)@) + views(more@),
{
    let ghost before = views(lines@);
    let mut i: usize = 0;
    assert(before + views(more@).take(0) =~= before);
    while i < more.len()
        invariant
            i <= more@.len(),
            views(lines@) == before + views(more@).take(i as int),
        decreases more@.len() - i,
    {
        let ghost start = lines@;
        lines.push(more[i].clone());
        i += 1;
        assert(views(lines@) =~= views(start).push(more@[i - 1]@));
        assert(views(lines@) =~= before + views(more@).take(i as int));
    }
    assert(views(more@).take(i as int) =~= views(more@));
}

/// The symbols of the scores whose full name holds `pattern`.
pub open spec fn matching(scores: Seq<ScoreView>, pattern: Seq<char>) -> Seq<Seq<char>>
    decreases scores.len(),
{
    if scores.len() == 0 {
        Seq::empty()
    } else {
        let before = matching(scores.drop_last(), pattern);
        let full = scores.last().symbol.full_name();
        if has_infix(full, pattern) {
            before.push(full)
        } else {
            before
        }
    }
}

/// `lines` show the uncovered callers of each of the symbols `names`, one symbol after the other,
/// in `sections`.
pub open spec fn are_sections(
    sections: Seq<Seq<Seq<char>>>,
    names: Seq<Seq<char>>,
    graph: &CallGraph,
    tests: Set<Seq<char>>,
    exclude: Seq<Seq<char>>,
) -> bool {
    &&& sections.len() == names.len()
    &&& forall|i: int|
        0 <= i < sections.len() ==> graph.is_section(
            #[trigger] sections[i],
            names[i],
            tests,
            exclude,
        )
}

/// Shows the uncovered callers of each symbol whose full name holds `pattern`, one symbol after
/// the other in the order of the scores, or says that there is none.
pub fn render_uncovered(
    pattern: &str,
    scores: &[RiskScore],
    graph: &CallGraph,
    test_modules: &NameSet,
    exclude: &[String],
) -> (r: Vec<String>)
    ensures
        ({
            let names = matching(score_views(scores@), pattern@);
            if names.len() == 0 {
                views(r@) == seq!["No symbols matching '"@ + pattern@ + "' found in changed set."@]
            } else {
                exists|sections: Seq<Seq<Seq<char>>>| #[trigger]
                    are_sections(sections, names, graph, test_modules@, views(exclude@)) && views(
                        r@,
                    ) == concatenated(sections)
            }
        }),
{
    let mut r: Vec<String> = Vec::new();
    let mut any = false;
    let ghost sv = score_views(scores@);
    let ghost mut sections: Seq<Seq<Seq<char>>> = Seq::empty();
    let mut i: usize = 0;
    assert(views(r@) =~= concatenated(sections));
    while i < scores.len()
        invariant
            i <= scores@.len(),
            sv == score_views(scores@),
            are_sections(
                sections,
                matching(sv.take(i as int), pattern@),
                graph,
                test_modules@,
                views(exclude@),
            ),
            views(r@) == concatenated(sections),
            any == (sections.len() > 0),
        decreases scores@.len() - i,
    {
        let full = scores[i].symbol.full_name();
        proof {
            let now = sv.take(i + 1);
            assert(now.drop_last() =~= sv.take(i as int));
            assert(now.last() == scores@[i as int]@);
        }
        if contains(full.as_str(), pattern) {
            any = true;
            let section = uncovered_section(full.as_str(), graph, test_modules, exclude);
            append_lines(&mut r, &section);
            proof {
                let more = sections.push(views(section@));
                assert(more.drop_last() =~= sections);
                sections = more;
            }
        }
        i += 1;
    }
    assert(sv.take(i as int) =~= sv);
    if !any {
        let mut message = "No symbols matching '".to_owned();
        message.append(pattern);
        message.append("' found in changed set.");
        let ghost text = message@;
        r.push(message);
        assert(views(r@) =~= seq![text]);
    }
    r
}

} // verus!
