//! What is read off a Python file.
use pyrisk::parser::{parse_file, symbols_of_nodes, FileSymbols};
use pyrisk::paths::{is_python_file, module_from_path, module_of_relative};
use pyrisk::syntax::{check_nodes, syntax_nodes, ParseError, Part, SyntaxNode};

fn parse_snippet(code: &str) -> FileSymbols {
    parse_file("/repo/snippet.py", "/repo", code).unwrap()
}

#[test]
fn test_function_defs() {
    let fs = parse_snippet(
        r#"
def foo():
    pass

def bar():
    foo()
"#,
    );
    assert_eq!(fs.defined.len(), 2);
    assert_eq!(fs.defined[0].qualname, "foo");
    assert_eq!(fs.defined[1].qualname, "bar");
}

#[test]
fn test_class_methods() {
    let fs = parse_snippet(
        r#"
class MyClass:
    def method_a(self):
        pass

    def method_b(self):
        self.method_a()
"#,
    );
    assert_eq!(fs.defined.len(), 2);
    assert_eq!(fs.defined[0].qualname, "MyClass.method_a");
    assert_eq!(fs.defined[1].qualname, "MyClass.method_b");
}

#[test]
fn test_calls() {
    let fs = parse_snippet(
        r#"
def foo():
    pass

def bar():
    foo()
    x.baz()
"#,
    );
    assert_eq!(fs.calls.len(), 2);
    assert_eq!(fs.calls[0], ("bar".to_string(), "foo".to_string()));
    assert_eq!(fs.calls[1], ("bar".to_string(), "x.baz".to_string()));
}

#[test]
fn test_nested_functions() {
    let fs = parse_snippet(
        r#"
def outer():
    def inner():
        pass
    inner()
"#,
    );
    assert_eq!(fs.defined.len(), 2);
    assert_eq!(fs.defined[0].qualname, "outer");
    assert_eq!(fs.defined[1].qualname, "outer.inner");
}

#[test]
fn test_attribute_calls_preserve_qualifier() {
    let fs = parse_snippet(
        r#"
def my_task():
    pass

def caller():
    my_task.delay(1, 2)
    my_task.apply_async(args=[1])
    my_task.s(1)
"#,
    );
    // The parser keeps the qualified name; resolution happens in the call graph.
    assert_eq!(fs.calls.len(), 3);
    assert_eq!(fs.calls[0], ("caller".to_string(), "my_task.delay".to_string()));
    assert_eq!(fs.calls[1], ("caller".to_string(), "my_task.apply_async".to_string()));
    assert_eq!(fs.calls[2], ("caller".to_string(), "my_task.s".to_string()));
}

#[test]
fn lines_module_and_file_are_recorded() {
    let code = "import os\n\n\n@wraps\ndef a(x):\n    return x\n\nasync def b():\n    pass\n";
    let fs = parse_file("/repo/pkg/mod.py", "/repo", code).unwrap();
    assert_eq!(fs.defined.len(), 2);
    assert_eq!(fs.defined[0].module, "pkg.mod");
    assert_eq!(fs.defined[0].file, "/repo/pkg/mod.py");
    assert_eq!((fs.defined[0].line, fs.defined[0].end_line), (5, 6));
    assert_eq!((fs.defined[1].line, fs.defined[1].end_line), (8, 9));
    assert_eq!(fs.defined[1].full_name(), "pkg.mod.b");
}

#[test]
fn calls_belong_to_the_innermost_function() {
    let code = "class A:\n    class B:\n        def m(self):\n            def n():\n                deep()\n            return n\n\ntop()\n";
    let fs = parse_snippet(code);
    let names: Vec<&str> = fs.defined.iter().map(|s| s.qualname.as_str()).collect();
    assert_eq!(names, vec!["A.B.m", "A.B.m.n"]);
    // A call outside of any function has no caller.
    assert_eq!(fs.calls, vec![("A.B.m.n".to_string(), "deep".to_string())]);
}

#[test]
fn only_simple_objects_qualify_a_call() {
    let code = "def f():\n    a.b.c()\n    g().h()\n    (lambda: 1)()\n    x[0]()\n";
    let fs = parse_snippet(code);
    assert_eq!(
        fs.calls,
        vec![
            ("f".to_string(), "c".to_string()),
            ("f".to_string(), "h".to_string()),
            ("f".to_string(), "g".to_string()),
        ]
    );
}

#[test]
fn names_may_hold_any_letters() {
    let fs = parse_snippet("def größe():\n    été.naïf()\n");
    assert_eq!(fs.defined[0].qualname, "größe");
    assert_eq!(fs.calls, vec![("größe".to_string(), "été.naïf".to_string())]);
}

#[test]
fn empty_file_has_no_symbols() {
    let fs = parse_snippet("");
    assert!(fs.defined.is_empty());
    assert!(fs.calls.is_empty());
    let none = FileSymbols::default();
    assert!(none.defined.is_empty() && none.calls.is_empty());
}

#[test]
fn clones_keep_everything() {
    let fs = parse_snippet("def f():\n    g()\n");
    let copy = fs.clone();
    assert_eq!(copy.defined, fs.defined);
    assert_eq!(copy.calls, fs.calls);
}

#[test]
fn modules_follow_paths() {
    assert_eq!(module_from_path("/repo/pkg/mod.py", "/repo"), "pkg.mod");
    assert_eq!(module_from_path("/repo/pkg/mod.py", "/repo/"), "pkg.mod");
    assert_eq!(module_from_path("/repo/pkg/__init__.py", "/repo"), "pkg");
    assert_eq!(module_from_path("/pkg/mod.py", "/"), "pkg.mod");
    // Not below the root: the whole path counts.
    assert_eq!(module_from_path("/repository/mod.py", "/repo"), ".repository.mod");
    assert_eq!(module_from_path("/repo", "/repo"), "");
    // Paths that do not start at the root of the file system.
    assert_eq!(module_from_path("pkg/a.py", "pkg"), "a");
    assert_eq!(module_from_path("pkg/sub/a.py", "pkg/"), "sub.a");
    assert_eq!(module_from_path("pkg/a.py", "other"), "pkg.a");
    assert_eq!(module_from_path("pkg/a.py", "/pkg"), "pkg.a");
    assert_eq!(module_from_path("../up/a.py", ".."), "up.a");
    // Repeated slashes, single dots and slashes at the end make no difference to the parts.
    assert_eq!(module_from_path("/repo//a.py", "/repo/./"), "a");
    assert_eq!(module_from_path("/repo/./a.py", "/repo//"), "a");
    assert_eq!(module_from_path("/repo/a", "/repo/a/."), "");
    assert_eq!(module_from_path("pkg/./a.py", "pkg/."), "a");
    assert_eq!(module_of_relative("__init__.py"), "__init__");
    assert_eq!(module_of_relative("a\\b.py"), "a.b");
    assert_eq!(module_of_relative("a/b.txt"), "a.b.txt");
}

#[test]
fn extensions_follow_the_last_dot() {
    for name in ["a.py", "a.b.py", ".py", "..py", ".a.py", "py", "a.pyc", "a.py.txt", "a.", "", "é.py"] {
        let expected = std::path::Path::new(name).extension().map_or(false, |e| e == "py");
        assert_eq!(is_python_file(name), expected, "{}", name);
    }
}

fn node(kind: &str, depth: usize) -> SyntaxNode {
    SyntaxNode {
        kind: kind.to_string(),
        depth,
        start_row: 0,
        end_row: 0,
        name: None,
        function: None,
        attribute: None,
        object: None,
    }
}

fn part(kind: &str, start: usize, end: usize) -> Option<Part> {
    Some(Part { kind: kind.to_string(), start, end })
}

#[test]
fn nodes_come_each_before_its_children() {
    let nodes = syntax_nodes("f(x)\n").unwrap();
    let shape: Vec<(&str, usize)> = nodes.iter().map(|n| (n.kind.as_str(), n.depth)).collect();
    assert_eq!(
        shape,
        vec![
            ("module", 0),
            ("expression_statement", 1),
            ("call", 2),
            ("identifier", 3),
            ("argument_list", 3),
            ("(", 4),
            ("identifier", 4),
            (")", 4),
        ]
    );
    let function = nodes[2].function.as_ref().unwrap();
    assert_eq!((function.kind.as_str(), function.start, function.end), ("identifier", 0, 1));
    assert!(nodes[2].name.is_none());
}

#[test]
fn nodes_that_do_not_lie_in_the_text_are_refused() {
    let mut f = node("function_definition", 1);
    f.name = part("identifier", 0, 3);
    assert!(!check_nodes(&vec![node("module", 0), f], "ab"));
    let mut g = node("function_definition", 1);
    g.name = part("identifier", 0, 1);
    // One byte is half of this letter.
    assert!(!check_nodes(&vec![g], "é"));
    let mut h = node("function_definition", 1);
    h.name = part("identifier", 0, 2);
    assert!(check_nodes(&vec![h], "é"));
    let mut last_row = node("module", 0);
    last_row.end_row = usize::MAX;
    assert!(!check_nodes(&vec![last_row], ""));
    assert_ne!(ParseError::Span, ParseError::TooLong);
    assert_ne!(ParseError::Language, ParseError::Tree);
}

#[test]
fn symbols_come_from_nodes() {
    let source = "C m f";
    let mut class = node("class_definition", 1);
    class.name = part("identifier", 0, 1);
    let mut method = node("function_definition", 2);
    method.name = part("identifier", 2, 3);
    method.end_row = 3;
    let mut call = node("call", 3);
    call.start_row = 2;
    call.function = part("identifier", 4, 5);
    let nodes = vec![node("module", 0), class, method, call];
    assert!(check_nodes(&nodes, source));
    let fs = symbols_of_nodes(&nodes, source, "mod", "mod.py");
    assert_eq!(fs.defined.len(), 1);
    assert_eq!(fs.defined[0].full_name(), "mod.C.m");
    assert_eq!((fs.defined[0].line, fs.defined[0].end_line), (1, 4));
    assert_eq!(fs.calls, vec![("C.m".to_string(), "f".to_string())]);
}
