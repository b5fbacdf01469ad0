//! Scores, labels and the modules that tests cover.
use pyrisk::binary64::Binary64;
use pyrisk::callgraph::{CallGraph, RepoBaseline};
use pyrisk::names::NameSet;
use pyrisk::parser::{FileSymbols, Symbol};
use pyrisk::scorer::{find_test_modules, score_all, tested_by, Entry, RiskScore};

fn make_sym(module: &str, qualname: &str, file: &str) -> Symbol {
    Symbol {
        module: module.to_string(),
        qualname: qualname.to_string(),
        file: file.to_string(),
        line: 1,
        end_line: 5,
    }
}

fn value(x: Binary64) -> f64 {
    f64::from_bits(x.to_bits())
}

fn call(caller: &str, callee: &str) -> (String, String) {
    (caller.to_string(), callee.to_string())
}

#[test]
fn test_exclude_filters_modules_and_uncovered() {
    // target is called by a caller in __tests__ dir and a caller in src dir
    let fs1 = FileSymbols {
        defined: vec![make_sym("mod_a", "target", "src/mod_a.py")],
        calls: vec![],
    };
    let fs2 = FileSymbols {
        defined: vec![make_sym("mod_b", "prod_caller", "src/mod_b.py")],
        calls: vec![("prod_caller".to_string(), "target".to_string())],
    };
    let fs3 = FileSymbols {
        defined: vec![make_sym("mod_c", "test_caller", "__tests__/mod_c.py")],
        calls: vec![("test_caller".to_string(), "target".to_string())],
    };

    let graph = CallGraph::build(&[fs1, fs2, fs3]);
    let changed = vec![make_sym("mod_a", "target", "src/mod_a.py")];
    let test_modules = NameSet::new();
    let exclude = vec!["__tests__".to_string()];

    let baseline = graph.compute_baseline(&exclude);
    let scores = score_all(&changed, &graph, &test_modules, &exclude, &baseline);
    assert_eq!(scores.len(), 1);
    let s = &scores[0];

    // Only prod_caller should be counted (test_caller is excluded)
    assert_eq!(s.direct_callers, 1);
    assert_eq!(s.transitive_callers, 1);
    // modules: mod_a (self) + mod_b (prod_caller) = 2, NOT 3
    assert_eq!(s.modules_affected, 2);
    // uncovered: only prod_caller (1), NOT test_caller
    assert_eq!(s.uncovered_callers, 1);
    // uncovered_ratio: 1/1 = 1.0
    assert_eq!(value(s.uncovered_ratio), 1.0);
}

#[test]
fn test_exclude_all_callers_zeros_modules_and_uncovered() {
    // All callers are in excluded dirs — modules and uncovered should be minimal
    let fs1 = FileSymbols {
        defined: vec![make_sym("mod_a", "target", "src/mod_a.py")],
        calls: vec![],
    };
    let fs2 = FileSymbols {
        defined: vec![make_sym("mod_t1", "caller1", "__tests__/mod_t1.py")],
        calls: vec![("caller1".to_string(), "target".to_string())],
    };
    let fs3 = FileSymbols {
        defined: vec![make_sym("mod_t2", "caller2", "__tests__/mod_t2.py")],
        calls: vec![("caller2".to_string(), "target".to_string())],
    };

    let graph = CallGraph::build(&[fs1, fs2, fs3]);
    let changed = vec![make_sym("mod_a", "target", "src/mod_a.py")];
    let test_modules = NameSet::new();
    let exclude = vec!["__tests__".to_string()];

    let baseline = graph.compute_baseline(&exclude);
    let scores = score_all(&changed, &graph, &test_modules, &exclude, &baseline);
    let s = &scores[0];

    assert_eq!(s.direct_callers, 0);
    assert_eq!(s.transitive_callers, 0);
    // Only the symbol's own module
    assert_eq!(s.modules_affected, 1);
    assert_eq!(s.uncovered_callers, 0);
    // uncovered_ratio: 0/max(0,1) = 0.0
    assert_eq!(value(s.uncovered_ratio), 0.0);
}

/// a is called by b and c, b by d; d calls itself.
fn small_repo() -> CallGraph {
    let files = [
        FileSymbols { defined: vec![make_sym("one", "a", "one.py")], calls: vec![] },
        FileSymbols {
            defined: vec![make_sym("two", "b", "two.py"), make_sym("two", "c", "two.py")],
            calls: vec![call("b", "a"), call("c", "a")],
        },
        FileSymbols {
            defined: vec![make_sym("three", "d", "three.py")],
            calls: vec![call("d", "b"), call("d", "d")],
        },
    ];
    CallGraph::build(&files)
}

#[test]
fn scores_combine_percentile_and_ratio() {
    let graph = small_repo();
    let baseline = graph.compute_baseline(&[]);
    assert_eq!(baseline.sorted_counts, vec![0, 1, 1, 2]);
    let mut tests = NameSet::new();
    tests.insert("three");
    let changed =
        vec![make_sym("three", "d", "three.py"), make_sym("one", "a", "one.py"), make_sym("two", "b", "two.py")];
    let scores = score_all(&changed, &graph, &tests, &[], &baseline);
    let names: Vec<String> = scores.iter().map(|s| s.symbol.full_name()).collect();
    assert_eq!(names, vec!["one.a", "three.d", "two.b"]);

    let a = &scores[0];
    assert_eq!((a.direct_callers, a.transitive_callers), (2, 3));
    assert_eq!((a.modules_affected, a.uncovered_callers), (3, 2));
    assert_eq!(value(a.uncovered_ratio), 2.0 / 3.0);
    assert_eq!(value(a.percentile), 1.0);
    assert_eq!(value(a.score), 1.0 * 60.0 + 2.0 / 3.0 * 40.0);
    assert_eq!(a.risk_label(), "HIGH");
    assert_eq!(a.risk_bar(), "████");

    // A call of itself is a direct caller, but no transitive one.
    let d = &scores[1];
    assert_eq!((d.direct_callers, d.transitive_callers, d.modules_affected), (1, 0, 1));
    assert_eq!(value(d.score), 0.75 * 60.0);
    assert_eq!(d.risk_label(), "MED");
    assert_eq!(d.risk_bar(), "███");

    let b = &scores[2];
    assert_eq!((b.direct_callers, b.transitive_callers, b.modules_affected), (1, 1, 2));
    assert_eq!(b.uncovered_callers, 0);
    assert_eq!(value(b.score), value(d.score));
}

#[test]
fn equal_scores_keep_their_order() {
    let graph = small_repo();
    let baseline = graph.compute_baseline(&[]);
    let changed = vec![
        make_sym("x", "p", "x.py"),
        make_sym("one", "a", "one.py"),
        make_sym("x", "q", "x.py"),
        make_sym("x", "r", "x.py"),
    ];
    let scores = score_all(&changed, &graph, &NameSet::new(), &[], &baseline);
    let names: Vec<String> = scores.iter().map(|s| s.symbol.full_name()).collect();
    assert_eq!(names, vec!["one.a", "x.p", "x.q", "x.r"]);
    assert!(score_all(&[], &graph, &NameSet::new(), &[], &baseline).is_empty());
}

fn rated(percentile: Binary64, ratio: Binary64) -> RiskScore {
    RiskScore {
        symbol: make_sym("m", "f", "m.py"),
        direct_callers: 0,
        transitive_callers: 0,
        modules_affected: 1,
        uncovered_callers: 0,
        uncovered_ratio: ratio,
        percentile,
        score: Binary64::nothing(),
    }
}

#[test]
fn labels_follow_their_thresholds() {
    for total in 1..60usize {
        for reached in 0..=total {
            for callers in 1..12usize {
                for uncovered in 0..=callers {
                    let s = rated(Binary64::ratio(reached, total), Binary64::ratio(uncovered, callers));
                    let percentile = reached as f64 / total as f64;
                    let ratio = uncovered as f64 / callers as f64;
                    let label = if percentile >= 0.90 && ratio > 0.5 {
                        "HIGH"
                    } else if percentile >= 0.75 || ratio > 0.5 {
                        "MED"
                    } else {
                        "LOW"
                    };
                    assert_eq!(s.risk_label(), label);
                    let exact = if 10 * reached >= 9 * total && 2 * uncovered > callers {
                        "HIGH"
                    } else if 4 * reached >= 3 * total || 2 * uncovered > callers {
                        "MED"
                    } else {
                        "LOW"
                    };
                    assert_eq!(s.risk_label(), exact);
                }
            }
        }
    }
    assert_eq!(rated(Binary64::ratio(1, 2), Binary64::ratio(1, 2)).risk_bar(), "█");
}

#[test]
fn more_tests_and_more_excludes_count_less() {
    let graph = small_repo();
    let baseline = graph.compute_baseline(&[]);
    let changed = vec![make_sym("one", "a", "one.py")];
    let mut tests = NameSet::new();
    let none = score_all(&changed, &graph, &tests, &[], &baseline);
    assert_eq!(none[0].uncovered_callers, 3);
    tests.insert("two");
    let some = score_all(&changed, &graph, &tests, &[], &baseline);
    assert_eq!(some[0].uncovered_callers, 1);
    tests.insert("three");
    let all = score_all(&changed, &graph, &tests, &[], &baseline);
    assert_eq!(all[0].uncovered_callers, 0);
    assert_eq!(all[0].transitive_callers, none[0].transitive_callers);
    let exclude = vec!["two".to_string()];
    let fewer = score_all(&changed, &graph, &NameSet::new(), &exclude, &baseline);
    assert_eq!((fewer[0].direct_callers, fewer[0].transitive_callers), (0, 1));
    assert_eq!(fewer[0].modules_affected, 2);
}

#[test]
fn an_empty_baseline_gives_no_percentile() {
    let graph = CallGraph::build(&[]);
    let baseline = graph.compute_baseline(&[]);
    let scores =
        score_all(&[make_sym("m", "f", "m.py")], &graph, &NameSet::new(), &[], &baseline);
    assert_eq!(value(scores[0].percentile), 0.0);
    assert_eq!(value(scores[0].score), 0.0);
    assert_eq!(scores[0].risk_label(), "LOW");
}

#[test]
fn scores_equal_floating_point_ones() {
    for n in 1..40usize {
        let baseline = RepoBaseline { sorted_counts: (0..n).collect() };
        for count in 0..n {
            let p = baseline.percentile_of(count);
            let r = Binary64::ratio(count, n);
            let score = p.multiply(Binary64::from_usize(60)).plus_value(r.multiply(Binary64::from_usize(40)));
            let (pf, rf) = ((count + 1) as f64 / n as f64, count as f64 / n as f64);
            assert_eq!(value(p), pf);
            assert_eq!(value(score), pf * 60.0 + rf * 40.0);
        }
    }
}

fn entry(name: &str, parent: &str) -> Entry {
    Entry { name: name.to_string(), parent: parent.to_string() }
}

#[test]
fn test_files_cover_the_module_beside_them() {
    let entries = vec![
        entry("foo.py", "/r/pkg"),
        entry("bar.py", "/r/pkg"),
        entry("test_foo.py", "/r/pkg"),
    ];
    let modules = find_test_modules(&entries, "/r");
    assert_eq!(modules.len(), 1);
    assert!(modules.contains("pkg.foo"));

    let entries = vec![
        entry("test_a.py", "/repo/pkg/sub"),
        entry("b_test.py", "/repo/other"),
        entry("a_test.py", "/repo/pkg/sub"),
        entry("test_top.py", "/repo"),
        entry("test_data.json", "/repo/data"),
        entry("helper.py", "/repo/helpers"),
        entry("test_d.py", "/elsewhere"),
        entry("latest.py", "/repo/latest"),
    ];
    let modules = find_test_modules(&entries, "/repo");
    assert_eq!(modules.len(), 3);
    assert!(modules.contains("pkg.sub.a"));
    assert!(modules.contains("other.b"));
    assert!(modules.contains("top"));
    // The same modules with a slash at the end of the root.
    let again = find_test_modules(&entries, "/repo/");
    assert_eq!(again.len(), 3);
    assert!(again.contains("pkg.sub.a") && again.contains("other.b") && again.contains("top"));
}

#[test]
fn tested_module_of_one_file() {
    let dir = |s: &str| Some(s.to_string());
    assert_eq!(tested_by("test_x.py", &dir("a/b")), dir("a.b.x"));
    assert_eq!(tested_by("x_test.py", &dir("a\\b")), dir("a.b.x"));
    assert_eq!(tested_by("test_x_test.py", &dir("a")), dir("a.x_test"));
    assert_eq!(tested_by("test___init__.py", &dir("a")), dir("a"));
    assert_eq!(tested_by("test_x.py", &dir("")), dir("x"));
    assert_eq!(tested_by("test_.py", &dir("a")), None);
    assert_eq!(tested_by("test_x.py", &None), None);
    assert_eq!(tested_by("x.py", &dir("a")), None);
    assert_eq!(tested_by("test_x.pyc", &dir("a")), None);
}

#[test]
fn callers_in_tested_modules_are_covered() {
    let files = [
        FileSymbols { defined: vec![make_sym("pkg.core", "f", "/r/pkg/core.py")], calls: vec![] },
        FileSymbols {
            defined: vec![make_sym("pkg.foo", "g", "/r/pkg/foo.py")],
            calls: vec![call("g", "f")],
        },
        FileSymbols {
            defined: vec![make_sym("pkg.bar", "h", "/r/pkg/bar.py")],
            calls: vec![call("h", "f")],
        },
    ];
    let graph = CallGraph::build(&files);
    let tests = find_test_modules(&[entry("test_foo.py", "/r/pkg")], "/r");
    let baseline = graph.compute_baseline(&[]);
    let changed = vec![make_sym("pkg.core", "f", "/r/pkg/core.py")];
    let scores = score_all(&changed, &graph, &tests, &[], &baseline);
    assert_eq!((scores[0].transitive_callers, scores[0].uncovered_callers), (2, 1));
    assert_eq!(value(scores[0].uncovered_ratio), 0.5);
}
