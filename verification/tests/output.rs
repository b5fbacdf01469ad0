//! What is shown of the scores.
use pyrisk::callgraph::CallGraph;
use pyrisk::names::NameSet;
use pyrisk::output::{
    decimal_of, detail_line, render_json, render_table, render_uncovered, table_header, table_row,
    Colour,
};
use pyrisk::parser::{FileSymbols, Symbol};
use pyrisk::scorer::{score_all, RiskScore};

fn make_sym(module: &str, qualname: &str, line: usize) -> Symbol {
    Symbol {
        module: module.to_string(),
        qualname: qualname.to_string(),
        file: format!("/repo/{}.py", module),
        line,
        end_line: line + 3,
    }
}

fn call(caller: &str, callee: &str) -> (String, String) {
    (caller.to_string(), callee.to_string())
}

/// a is called by b, b by c, c by d.
fn repo() -> CallGraph {
    CallGraph::build(&[
        FileSymbols { defined: vec![make_sym("one", "a", 3)], calls: vec![] },
        FileSymbols { defined: vec![make_sym("two", "b", 7)], calls: vec![call("b", "a")] },
        FileSymbols {
            defined: vec![make_sym("three", "C.c", 12), make_sym("three", "d", 20)],
            calls: vec![call("C.c", "b"), call("d", "C.c")],
        },
    ])
}

fn scored(graph: &CallGraph, tests: &NameSet, exclude: &[String]) -> Vec<RiskScore> {
    let baseline = graph.compute_baseline(exclude);
    let changed = vec![make_sym("one", "a", 3), make_sym("three", "d", 20)];
    score_all(&changed, graph, tests, exclude, &baseline)
}

#[test]
fn decimals_are_written_out() {
    for n in [0u64, 7, 9, 10, 11, 99, 100, 1234567890, u64::MAX] {
        assert_eq!(decimal_of(n), n.to_string());
    }
}

#[test]
fn the_table_has_six_columns() {
    assert_eq!(
        table_header(),
        vec!["SYMBOL", "CALLERS", "MODULES", "UNCOVERED", "PERCENTILE", "RISK"]
    );
}

#[test]
fn rows_show_scores() {
    let graph = repo();
    let mut tests = NameSet::new();
    tests.insert("two");
    let scores = scored(&graph, &tests, &[]);
    let row = table_row(&scores[0]);
    assert_eq!(row.symbol, "one.a");
    assert_eq!(row.callers, "1 (3)");
    assert_eq!(row.modules, "3");
    assert_eq!(row.uncovered, "2 (67%)");
    assert_eq!(row.percentile, "p100");
    assert_eq!(row.risk, "████ HIGH");
    assert_eq!(row.colour, Colour::Red);
    let row = table_row(&scores[1]);
    assert_eq!(row.symbol, "three.d");
    assert_eq!(row.callers, "0 (0)");
    assert_eq!(row.uncovered, "0 (0%)");
    assert_eq!(row.percentile, "p25");
    assert_eq!(row.risk, "█ LOW");
    assert_eq!(row.colour, Colour::DarkGrey);
    assert_eq!(
        detail_line(&scores[0]),
        "  Direct: 1, Transitive: 3, Percentile: p100, Uncovered: 2/3 (67%), Score: 86.7"
    );
}

#[test]
fn tables_have_a_row_for_each_score() {
    let graph = repo();
    let mut tests = NameSet::new();
    tests.insert("two");
    tests.insert("three");
    let scores = scored(&graph, &tests, &[]);
    let brief = render_table(&scores, false);
    assert!(brief.message.is_none());
    assert_eq!(brief.rows.len(), 2);
    assert_eq!(brief.rows[0].risk, "███ MED");
    assert_eq!(brief.rows[0].colour, Colour::Yellow);
    assert!(brief.details.is_empty());
    let full = render_table(&scores, true);
    assert_eq!(full.rows.len(), 2);
    assert_eq!(
        full.details,
        vec![
            "",
            "--- Detailed caller breakdown ---",
            "",
            "one.a:",
            "  Direct: 1, Transitive: 3, Percentile: p100, Uncovered: 0/3 (0%), Score: 60.0",
            "",
            "three.d:",
            "  Direct: 0, Transitive: 0, Percentile: p25, Uncovered: 0/0 (0%), Score: 15.0",
            "",
        ]
    );
    let none = render_table(&[], true);
    assert_eq!(none.message.as_deref(), Some("No changed symbols found."));
    assert!(none.rows.is_empty() && none.details.is_empty());
}

#[test]
fn entries_repeat_scores() {
    let graph = repo();
    let scores = scored(&graph, &NameSet::new(), &[]);
    let entries = render_json(&scores);
    assert_eq!(entries.len(), 2);
    let e = &entries[0];
    assert_eq!((e.symbol.as_str(), e.module.as_str()), ("one.a", "one"));
    assert_eq!((e.file.as_str(), e.line), ("/repo/one.py", 3));
    assert_eq!((e.direct_callers, e.transitive_callers), (1, 3));
    assert_eq!((e.modules_affected, e.uncovered_callers), (3, 3));
    assert_eq!(f64::from_bits(e.uncovered_ratio.to_bits()), 1.0);
    assert_eq!(f64::from_bits(e.percentile.to_bits()), 1.0);
    assert_eq!(f64::from_bits(e.score.to_bits()), 100.0);
    assert_eq!(e.risk, "HIGH");
    assert!(render_json(&[]).is_empty());
}

#[test]
fn uncovered_callers_come_with_their_chains() {
    let graph = repo();
    let mut tests = NameSet::new();
    tests.insert("nothing");
    let scores = scored(&graph, &tests, &[]);
    let lines = render_uncovered("one.", &scores, &graph, &tests, &[]);
    assert_eq!(
        lines,
        vec![
            "one.a  (3 uncovered callers)",
            "  /repo/two.py:7  [two]",
            "  /repo/three.py:12  [three]",
            "    chain: three.C.c calls two.b calls one.a",
            "  /repo/three.py:20  [three]",
            "    chain: three.d calls three.C.c calls two.b calls one.a",
            "",
        ]
    );
    // As many as the score counts.
    assert_eq!(scores[0].uncovered_callers, 3);
}

#[test]
fn covered_and_excluded_callers_are_not_shown() {
    let graph = repo();
    let mut tests = NameSet::new();
    tests.insert("three");
    let exclude = vec!["two.py".to_string()];
    let scores = scored(&graph, &tests, &exclude);
    let lines = render_uncovered("", &scores, &graph, &tests, &exclude);
    assert_eq!(
        lines,
        vec![
            "one.a  (0 uncovered callers)",
            "  (all callers are covered by tests)",
            "",
            "three.d  (0 uncovered callers)",
            "  (all callers are covered by tests)",
            "",
        ]
    );
}

#[test]
fn patterns_that_match_nothing_are_named() {
    let graph = repo();
    let scores = scored(&graph, &NameSet::new(), &[]);
    let lines = render_uncovered("zzz", &scores, &graph, &NameSet::new(), &[]);
    assert_eq!(lines, vec!["No symbols matching 'zzz' found in changed set."]);
    let lines = render_uncovered("a", &[], &graph, &NameSet::new(), &[]);
    assert_eq!(lines, vec!["No symbols matching 'a' found in changed set."]);
}
