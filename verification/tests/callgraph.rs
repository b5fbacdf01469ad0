//! The call graph: resolution of calls, blast radius and baseline.
use pyrisk::callgraph::{CallGraph, RepoBaseline};
use pyrisk::parser::{FileSymbols, Symbol};

fn make_sym(module: &str, qualname: &str) -> Symbol {
    Symbol {
        module: module.to_string(),
        qualname: qualname.to_string(),
        file: "test.py".to_string(),
        line: 1,
        end_line: 5,
    }
}

#[test]
fn test_basic_call_graph() {
    let fs = FileSymbols {
        defined: vec![
            make_sym("mod", "foo"),
            make_sym("mod", "bar"),
            make_sym("mod", "baz"),
        ],
        calls: vec![
            ("bar".to_string(), "foo".to_string()),
            ("baz".to_string(), "bar".to_string()),
        ],
    };

    let graph = CallGraph::build(&[fs]);
    assert_eq!(graph.direct_callers("mod.foo"), 1);

    let radius = graph.blast_radius("mod.foo");
    assert_eq!(radius.len(), 2); // bar and baz
}

#[test]
fn test_qualified_call_disambiguates() {
    // Two classes with a "create" method
    let fs1 = FileSymbols {
        defined: vec![
            make_sym("mod_a", "Alpha.create"),
            make_sym("mod_b", "Beta.create"),
        ],
        calls: vec![],
    };

    // A caller that does Alpha.create() — should only link to Alpha.create
    let fs2 = FileSymbols {
        defined: vec![make_sym("mod_c", "do_stuff")],
        calls: vec![("do_stuff".to_string(), "Alpha.create".to_string())],
    };

    let graph = CallGraph::build(&[fs1, fs2]);
    assert_eq!(graph.direct_callers("mod_a.Alpha.create"), 1);
    assert_eq!(graph.direct_callers("mod_b.Beta.create"), 0);
}

#[test]
fn test_self_call_disambiguates() {
    // Two classes with a "save" method
    let fs = FileSymbols {
        defined: vec![
            make_sym("mod", "Foo.save"),
            make_sym("mod", "Foo.process"),
            make_sym("mod", "Bar.save"),
        ],
        // Foo.process calls self.save() — should only link to Foo.save
        calls: vec![("Foo.process".to_string(), "self.save".to_string())],
    };

    let graph = CallGraph::build(&[fs]);
    assert_eq!(graph.direct_callers("mod.Foo.save"), 1);
    assert_eq!(graph.direct_callers("mod.Bar.save"), 0);
}

#[test]
fn test_unqualified_call_matches_all_when_no_same_module() {
    // Bare call with no same-module candidate — matches all
    let fs1 = FileSymbols {
        defined: vec![make_sym("mod_a", "helper")],
        calls: vec![],
    };
    let fs2 = FileSymbols {
        defined: vec![make_sym("mod_b", "helper")],
        calls: vec![],
    };
    let fs3 = FileSymbols {
        defined: vec![make_sym("mod_c", "caller")],
        calls: vec![("caller".to_string(), "helper".to_string())],
    };

    let graph = CallGraph::build(&[fs1, fs2, fs3]);
    assert_eq!(graph.direct_callers("mod_a.helper"), 1);
    assert_eq!(graph.direct_callers("mod_b.helper"), 1);
}

#[test]
fn test_unqualified_call_prefers_same_module() {
    // Bare call "run()" with same-module candidate — prefers same module
    let fs1 = FileSymbols {
        defined: vec![
            make_sym("mod_a", "caller"),
            make_sym("mod_a", "run"),
        ],
        calls: vec![("caller".to_string(), "run".to_string())],
    };
    let fs2 = FileSymbols {
        defined: vec![make_sym("mod_b", "run")],
        calls: vec![],
    };

    let graph = CallGraph::build(&[fs1, fs2]);
    assert_eq!(graph.direct_callers("mod_a.run"), 1);
    assert_eq!(graph.direct_callers("mod_b.run"), 0);
}

#[test]
fn test_self_fallback_for_inheritance() {
    // self.save() where save is inherited from Parent — falls back to all
    let fs = FileSymbols {
        defined: vec![
            make_sym("mod", "Parent.save"),
            make_sym("mod", "Child.process"),
        ],
        calls: vec![("Child.process".to_string(), "self.save".to_string())],
    };

    let graph = CallGraph::build(&[fs]);
    assert_eq!(graph.direct_callers("mod.Parent.save"), 1);
}

#[test]
fn test_method_call_on_known_function_resolves_to_function() {
    // Simulates: my_task.delay() where my_task is a top-level function (Celery task)
    let fs = FileSymbols {
        defined: vec![
            make_sym("mod", "my_task"),
            make_sym("mod", "caller"),
        ],
        calls: vec![
            ("caller".to_string(), "my_task.delay".to_string()),
            ("caller".to_string(), "my_task.gen_delay".to_string()),
            ("caller".to_string(), "my_task.run".to_string()),
        ],
    };

    let graph = CallGraph::build(&[fs]);
    assert_eq!(graph.direct_callers("mod.my_task"), 1); // caller (deduplicated)
}

#[test]
fn test_method_call_on_class_method_no_false_positive() {
    // obj.save() should NOT match a top-level function "obj" if "obj" isn't defined
    // but SHOULD NOT match MyClass.save either (qualifier "obj" != "MyClass")
    let fs = FileSymbols {
        defined: vec![
            make_sym("mod", "MyClass.save"),
            make_sym("mod", "do_stuff"),
        ],
        calls: vec![("do_stuff".to_string(), "obj.save".to_string())],
    };

    let graph = CallGraph::build(&[fs]);
    assert_eq!(graph.direct_callers("mod.MyClass.save"), 0);
}

#[test]
fn test_variable_qualifier_no_fallback() {
    // variable.create() where variable type is unknown — should NOT
    // fall back to matching unrelated functions named "create"
    let fs1 = FileSymbols {
        defined: vec![make_sym("mod_a", "Unrelated.create")],
        calls: vec![],
    };
    let fs2 = FileSymbols {
        defined: vec![make_sym("mod_b", "do_stuff")],
        // factory.create() — "factory" isn't a known class
        calls: vec![("do_stuff".to_string(), "factory.create".to_string())],
    };

    let graph = CallGraph::build(&[fs1, fs2]);
    assert_eq!(graph.direct_callers("mod_a.Unrelated.create"), 0);
}

fn file(module: &str, defined: &[&str], calls: &[(&str, &str)]) -> FileSymbols {
    FileSymbols {
        defined: defined.iter().map(|q| make_sym(module, q)).collect(),
        calls: calls.iter().map(|(a, b)| (a.to_string(), b.to_string())).collect(),
    }
}

fn names(graph: &CallGraph, sym: &str) -> Vec<String> {
    let mut v: Vec<String> = match graph.callers.get(sym) {
        Some(set) => (0..set.len()).map(|i| set.get(i).to_string()).collect(),
        None => vec![],
    };
    v.sort();
    v
}

#[test]
fn radius_holds_all_transitive_callers() {
    // f0 <- f1 <- ... <- f14
    let defined: Vec<String> = (0..15).map(|i| format!("f{}", i)).collect();
    let fs = FileSymbols {
        defined: defined.iter().map(|q| make_sym("m", q)).collect(),
        calls: (1..15).map(|i| (format!("f{}", i), format!("f{}", i - 1))).collect(),
    };
    let graph = CallGraph::build(&[fs]);
    let radius = graph.blast_radius("m.f0");
    assert_eq!(radius.len(), 14);
    for (i, (name, depth)) in radius.iter().enumerate() {
        assert_eq!(*name, format!("m.f{}", i + 1));
        assert_eq!(*depth, i + 1);
    }
    assert!(graph.blast_radius("m.f14").is_empty());
    assert!(graph.blast_radius("unknown").is_empty());
    let chain = graph.call_chain("m.f0", "m.f14");
    assert_eq!(chain.len(), 15);
    assert_eq!(chain[0], "m.f0");
    assert_eq!(chain[14], "m.f14");
}

#[test]
fn radius_and_chain_take_shortest_ways() {
    let fs = file(
        "m",
        &["a", "b", "c", "d"],
        &[("b", "a"), ("c", "b"), ("d", "c"), ("d", "a"), ("a", "d")],
    );
    let graph = CallGraph::build(&[fs]);
    let mut radius = graph.blast_radius("m.a");
    radius.sort();
    assert_eq!(
        radius,
        vec![("m.b".to_string(), 1), ("m.c".to_string(), 2), ("m.d".to_string(), 1)]
    );
    assert_eq!(graph.call_chain("m.a", "m.d"), vec!["m.a", "m.d"]);
    assert_eq!(graph.call_chain("m.a", "m.c"), vec!["m.a", "m.b", "m.c"]);
    assert_eq!(graph.call_chain("m.a", "m.a"), vec!["m.a"]);
    assert!(graph.call_chain("m.a", "m.nowhere").is_empty());
    assert_eq!(graph.call_chain("unknown", "unknown"), vec!["unknown"]);
}

#[test]
fn recursion_is_a_direct_call_only() {
    let graph = CallGraph::build(&[file("m", &["f"], &[("f", "f")])]);
    assert_eq!(graph.direct_callers("m.f"), 1);
    assert!(graph.blast_radius("m.f").is_empty());
}

#[test]
fn unknown_callers_and_empty_files_are_skipped() {
    let orphan = file("m", &[], &[("g", "f")]);
    let strange = file("m", &["f"], &[("missing", "f")]);
    let graph = CallGraph::build(&[orphan, strange]);
    assert_eq!(graph.direct_callers("m.f"), 0);
    assert_eq!(graph.symbols.len(), 1);
}

#[test]
fn callers_mirror_callees_and_file_order_is_irrelevant() {
    let make = || {
        vec![
            file("a", &["f", "C.m", "C.n"], &[("C.m", "self.n"), ("f", "C.m"), ("f", "g")]),
            file("b", &["g", "h"], &[("h", "g"), ("g", "f"), ("h", "f.delay")]),
            file("c", &["g", "D.n"], &[("g", "D.n"), ("D.n", "cls.m")]),
        ]
    };
    let graph = CallGraph::build(&make());
    let mut files = make();
    files.rotate_left(1);
    files.swap(0, 1);
    let other = CallGraph::build(&files);
    let all = ["a.f", "a.C.m", "a.C.n", "b.g", "b.h", "c.g", "c.D.n"];
    for callee in all {
        assert_eq!(names(&graph, callee), names(&other, callee));
        for caller in all {
            let down = graph.callees.get(caller).map_or(false, |s| s.contains(callee));
            let up = graph.callers.get(callee).map_or(false, |s| s.contains(caller));
            assert_eq!(down, up);
        }
    }
    assert_eq!(names(&graph, "a.C.n"), vec!["a.C.m"]);
    assert_eq!(names(&graph, "a.f"), vec!["b.g", "b.h"]);
    // cls.m falls back to every m, as it may be inherited.
    assert_eq!(names(&graph, "a.C.m"), vec!["a.f", "c.D.n"]);
    // g is not defined in a: every g is meant.
    assert_eq!(names(&graph, "b.g"), vec!["a.f", "b.h"]);
    assert_eq!(names(&graph, "c.g"), vec!["a.f"]);
}

#[test]
fn self_outside_of_a_class_reaches_every_function() {
    let graph = CallGraph::build(&[
        file("m", &["run", "A.save"], &[("run", "self.save")]),
        file("n", &["save"], &[]),
    ]);
    assert_eq!(names(&graph, "m.A.save"), vec!["m.run"]);
    assert_eq!(names(&graph, "n.save"), vec!["m.run"]);
}

#[test]
fn self_reaches_no_class_whose_name_ends_alike() {
    let graph = CallGraph::build(&[file(
        "mod",
        &["Foo.save", "Foo.process", "MyFoo.save", "f"],
        &[("Foo.process", "self.save"), ("f", "Foo.save")],
    )]);
    assert_eq!(graph.direct_callers("mod.Foo.save"), 2);
    assert_eq!(graph.direct_callers("mod.MyFoo.save"), 0);
}

#[test]
fn self_means_the_class_around_the_caller() {
    let graph = CallGraph::build(&[
        file(
            "a",
            &["Foo.save", "Foo.process", "Foo.process.inner", "Bar.save", "One.Meta.go", "One.Meta.run", "Two.Meta.go"],
            &[
                ("Foo.process", "self.save"),
                ("Foo.process.inner", "self.save"),
                ("One.Meta.run", "cls.go"),
            ],
        ),
        file("b", &["Foo.save", "process.save"], &[]),
    ]);
    assert_eq!(names(&graph, "a.Foo.save"), vec!["a.Foo.process", "a.Foo.process.inner"]);
    assert!(names(&graph, "a.Bar.save").is_empty());
    assert!(names(&graph, "b.Foo.save").is_empty());
    assert!(names(&graph, "b.process.save").is_empty());
    assert_eq!(names(&graph, "a.One.Meta.go"), vec!["a.One.Meta.run"]);
    assert!(names(&graph, "a.Two.Meta.go").is_empty());
}

#[test]
fn a_class_inside_a_class_does_not_stand_for_it() {
    let graph = CallGraph::build(&[file(
        "m",
        &["Parent.save", "Outer.save", "Outer.Child.process", "Outer.Child.process.inner"],
        &[("Outer.Child.process", "self.save"), ("Outer.Child.process.inner", "self.save")],
    )]);
    // The method may be inherited from anywhere.
    let callers = vec!["m.Outer.Child.process", "m.Outer.Child.process.inner"];
    assert_eq!(names(&graph, "m.Parent.save"), callers);
    assert_eq!(names(&graph, "m.Outer.save"), callers);
}

#[test]
fn inherited_methods_are_found_by_class_name_first() {
    let graph = CallGraph::build(&[
        file("a", &["Foo.process"], &[("Foo.process", "self.save")]),
        file("b", &["Foo.save", "Other.save", "BarFoo.save"], &[]),
    ]);
    assert_eq!(names(&graph, "b.Foo.save"), vec!["a.Foo.process"]);
    assert!(names(&graph, "b.Other.save").is_empty());
    assert!(names(&graph, "b.BarFoo.save").is_empty());
}

#[test]
fn nested_classes_match_by_their_last_names() {
    let graph = CallGraph::build(&[file(
        "m",
        &["Outer.Inner.go", "Other.go", "f"],
        &[("f", "Inner.go"), ("Outer.Inner.go", "self.go")],
    )]);
    assert_eq!(names(&graph, "m.Outer.Inner.go"), vec!["m.Outer.Inner.go", "m.f"]);
    assert!(names(&graph, "m.Other.go").is_empty());
}

#[test]
fn the_last_definition_of_a_name_counts() {
    let mut second = make_sym("m", "f");
    second.line = 40;
    let fs = FileSymbols { defined: vec![make_sym("m", "f"), second], calls: vec![] };
    let graph = CallGraph::build(&[fs]);
    assert_eq!(graph.symbols.len(), 1);
    assert_eq!(graph.symbols.get("m.f").unwrap().line, 40);
}

#[test]
fn excluded_callers_are_not_counted() {
    let mut inside = make_sym("t", "g");
    inside.file = "/repo/__tests__/t.py".to_string();
    let fs = FileSymbols { defined: vec![inside], calls: vec![("g".to_string(), "f".to_string())] };
    let graph = CallGraph::build(&[file("m", &["f", "h"], &[("h", "f")]), fs]);
    let exclude = vec!["nothing".to_string(), "__tests__".to_string()];
    assert_eq!(graph.direct_callers("m.f"), 2);
    assert_eq!(graph.direct_callers_filtered("m.f", &[]), 2);
    assert_eq!(graph.direct_callers_filtered("m.f", &exclude), 1);
    assert!(graph.is_caller_excluded("t.g", &exclude));
    assert!(!graph.is_caller_excluded("m.h", &exclude));
    assert!(!graph.is_caller_excluded("unknown", &exclude));
    assert_eq!(graph.compute_baseline(&exclude).sorted_counts, vec![0, 0, 1]);
    assert_eq!(graph.compute_baseline(&[]).sorted_counts, vec![0, 0, 2]);
}

#[test]
fn percentiles_are_fractions_that_ascend() {
    let baseline = RepoBaseline { sorted_counts: vec![0, 0, 0, 1, 1, 2, 5, 5, 9, 30] };
    let value = |c: usize| f64::from_bits(baseline.percentile_of(c).to_bits());
    assert_eq!(value(0), 0.3);
    assert_eq!(value(1), 0.5);
    assert_eq!(value(4), 0.6);
    assert_eq!(value(5), 0.8);
    assert_eq!(value(29), 0.9);
    assert_eq!(value(30), 1.0);
    assert_eq!(value(usize::MAX), 1.0);
    for c in 0..40 {
        assert!(value(c) <= value(c + 1));
    }
    let empty = RepoBaseline { sorted_counts: vec![] };
    assert_eq!(f64::from_bits(empty.percentile_of(3).to_bits()), 0.0);
}

#[test]
fn values_at_percentages() {
    let empty = RepoBaseline { sorted_counts: vec![] };
    assert_eq!(empty.p(50), 0);
    for n in 1..130usize {
        let baseline = RepoBaseline { sorted_counts: (0..n).map(|i| i * 3).collect() };
        for pct in 0..=110usize {
            let idx = (pct as f64 / 100.0 * n as f64) as usize;
            assert_eq!(baseline.p(pct), 3 * idx.min(n - 1));
        }
        assert_eq!(baseline.p(0), 0);
        assert_eq!(baseline.p(100), 3 * (n - 1));
        assert_eq!(baseline.p(101), 3 * (n - 1));
        assert_eq!(baseline.p(usize::MAX), 3 * (n - 1));
    }
}
