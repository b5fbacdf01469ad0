//! What a Python file defines and what its functions call.
use crate::paths::{is_module_at, module_from_path};
use crate::syntax::{
    all_lie_in, check_nodes, node_lies_in, node_views, part_text, python_nodes,
    syntax_nodes, text_of, NodeView, ParseError, SyntaxNode,
};
use crate::text::{dotted, join, join_dotted, joined, same, views};
use vstd::prelude::*;
use vstd::string::*;
use vstd::utf8::encode_utf8;

verus! {

/// A function or method: the module it stands in, its name with those of the definitions around
/// it, and the lines of the file that it covers.
#[derive(Debug, PartialEq, Eq, Hash)]
pub struct Symbol {
    pub module: String,
    pub qualname: String,
    pub file: String,
    pub line: usize,
    pub end_line: usize,
}

/// What a [`Symbol`] says.
pub struct SymbolView {
    pub module: Seq<char>,
    pub qualname: Seq<char>,
    pub file: Seq<char>,
    pub line: nat,
    pub end_line: nat,
}

/// The functions that a file defines, and its calls: the caller's qualified name and the name
/// that it calls, as the call spells it.
#[derive(Debug)]
pub struct FileSymbols {
    pub defined: Vec<Symbol>,
    pub calls: Vec<(String, String)>,
}

/// What a [`FileSymbols`] lists.
pub struct FileView {
    pub defined: Seq<SymbolView>,
    pub calls: Seq<(Seq<char>, Seq<char>)>,
}

impl View for Symbol {
    type V = SymbolView;

    open spec fn view(&self) -> SymbolView {
        SymbolView {
            module: self.module@,
            qualname: self.qualname@,
            file: self.file@,
            line: self.line as nat,
            end_line: self.end_line as nat,
        }
    }
}

impl View for FileSymbols {
    type V = FileView;

    open spec fn view(&self) -> FileView {
        FileView { defined: symbol_views(self.defined@), calls: call_views(self.calls@) }
    }
}

/// What each symbol of `symbols` says.
pub open spec fn symbol_views(symbols: Seq<Symbol>) -> Seq<SymbolView> {
    symbols.map_values(|s: Symbol| s@)
}

/// The two names of each call of `calls`.
pub open spec fn call_views(calls: Seq<(String, String)>) -> Seq<(Seq<char>, Seq<char>)> {
    calls.map_values(|c: (String, String)| (c.0@, c.1@))
}

impl SymbolView {
    /// The name by which the whole repository knows the symbol.
    pub open spec fn full_name(self) -> Seq<char> {
        dotted(self.module, self.qualname)
    }
}

impl Clone for Symbol {
    fn clone(&self) -> (r: Symbol)
        ensures
            r == *self,
    {
        Symbol {
            module: self.module.clone(),
            qualname: self.qualname.clone(),
            file: self.file.clone(),
            line: self.line,
            end_line: self.end_line,
        }
    }
}

impl Symbol {
    /// `module.qualname`.
    pub fn full_name(&self) -> (r: String)
        ensures
            r@ == self@.full_name(),
    {
        join_dotted(self.module.as_str(), self.qualname.as_str())
    }
}

impl Clone for FileSymbols {
    fn clone(&self) -> (r: FileSymbols)
        ensures
            r@ == self@,
    {
        let mut defined: Vec<Symbol> = Vec::new();
        let mut i: usize = 0;
        while i < self.defined.len()
            invariant
                i <= self.defined@.len(),
                defined@ == self.defined@.take(i as int),
            decreases self.defined@.len() - i,
        {
            defined.push(self.defined[i].clone());
            i += 1;
            assert(defined@ =~= self.defined@.take(i as int));
        }
        let mut calls: Vec<(String, String)> = Vec::new();
        let mut k: usize = 0;
        while k < self.calls.len()
            invariant
                k <= self.calls@.len(),
                calls@ == self.calls@.take(k as int),
            decreases self.calls@.len() - k,
        {
            calls.push((self.calls[k].0.clone(), self.calls[k].1.clone()));
            k += 1;
            assert(calls@ =~= self.calls@.take(k as int));
        }
        assert(defined@ =~= self.defined@);
        assert(calls@ =~= self.calls@);
        FileSymbols { defined, calls }
    }
}

impl Default for FileSymbols {
    fn default() -> (r: FileSymbols)
        ensures
            r@ == (FileView { defined: Seq::empty(), calls: Seq::empty() }),
    {
        let r = FileSymbols { defined: Vec::new(), calls: Vec::new() };
        assert(r@.defined =~= Seq::empty());
        assert(r@.calls =~= Seq::empty());
        r
    }
}

/// `node` defines something that has names of its own in it: a class or a function.
pub open spec fn opens_scope(node: NodeView) -> bool {
    (node.kind == "class_definition"@ || node.kind == "function_definition"@) && node.name is Some
}

/// `node` defines a function.
pub open spec fn defines_function(node: NodeView) -> bool {
    node.kind == "function_definition"@ && node.name is Some
}

/// No node after number `a` and before number `i` is outside of node number `a`.
pub open spec fn stays_open(nodes: Seq<NodeView>, a: int, i: int) -> bool {
    forall|j: int| a < j < i ==> nodes[a].depth < (#[trigger] nodes[j]).depth
}

/// The classes and functions among the first `k` nodes that are still open at node number `i`:
/// their depths and their names, from the outside in.
pub open spec fn open_scopes(
    nodes: Seq<NodeView>,
    source: Seq<char>,
    i: int,
    k: int,
) -> Seq<(nat, Seq<char>)>
    decreases k,
{
    if k <= 0 {
        Seq::empty()
    } else {
        let outer = open_scopes(nodes, source, i, k - 1);
        let node = nodes[k - 1];
        if opens_scope(node) && stays_open(nodes, k - 1, i) {
            outer.push((node.depth, text_of(node.name->0, source)))
        } else {
            outer
        }
    }
}

/// The names of the classes and functions around node number `i`, from the outside in.
pub open spec fn scope(nodes: Seq<NodeView>, source: Seq<char>, i: int) -> Seq<Seq<char>> {
    open_scopes(nodes, source, i + 1, i).map_values(|e: (nat, Seq<char>)| e.1)
}

/// The function that node number `i` defines.
pub open spec fn definition(
    nodes: Seq<NodeView>,
    source: Seq<char>,
    module: Seq<char>,
    file: Seq<char>,
    i: int,
) -> SymbolView {
    SymbolView {
        module,
        qualname: joined(
            scope(nodes, source, i).push(text_of(nodes[i].name->0, source)),
            "."@,
        ),
        file,
        line: nodes[i].start_row + 1,
        end_line: nodes[i].end_row + 1,
    }
}

/// The functions that the first `n` nodes define, in order.
pub open spec fn definitions(
    nodes: Seq<NodeView>,
    source: Seq<char>,
    module: Seq<char>,
    file: Seq<char>,
    n: int,
) -> Seq<SymbolView>
    decreases n,
{
    if n <= 0 {
        Seq::empty()
    } else {
        let before = definitions(nodes, source, module, file, n - 1);
        if defines_function(nodes[n - 1]) {
            before.push(definition(nodes, source, module, file, n - 1))
        } else {
            before
        }
    }
}

/// The depths and names on a stack of open scopes.
pub open spec fn stack_view(depths: Seq<usize>, names: Seq<String>) -> Seq<(nat, Seq<char>)> {
    Seq::new(depths.len(), |i: int| (depths[i] as nat, names[i]@))
}

/// Deeper scopes stand further in.
pub open spec fn deepens(stack: Seq<(nat, Seq<char>)>) -> bool {
    forall|i: int, j: int|
        0 <= i < j < stack.len() ==> (#[trigger] stack[i]).0 < (#[trigger] stack[j]).0
}

proof fn lemma_open_scopes_deepen(nodes: Seq<NodeView>, source: Seq<char>, i: int, k: int)
    requires
        0 <= k <= i,
    ensures
        deepens(open_scopes(nodes, source, i, k)),
        forall|j: int, m: int|
            0 <= j < open_scopes(nodes, source, i, k).len() && k <= m < i ==> (
            #[trigger] open_scopes(nodes, source, i, k)[j]).0 < (#[trigger] nodes[m]).depth,
    decreases k,
{
    if k > 0 {
        lemma_open_scopes_deepen(nodes, source, i, k - 1);
        let outer = open_scopes(nodes, source, i, k - 1);
        assert(forall|j: int| 0 <= j < outer.len() ==> (#[trigger] outer[j]).0 < nodes[k - 1].depth);
    }
}

/// Node number `i` closes the scopes that are not less deep than itself.
proof fn lemma_close_scopes(nodes: Seq<NodeView>, source: Seq<char>, i: int, k: int, t: int)
    requires
        0 <= k <= i,
        0 <= t <= open_scopes(nodes, source, i, k).len(),
        forall|j: int|
            0 <= j < t ==> (#[trigger] open_scopes(nodes, source, i, k)[j]).0 < nodes[i].depth,
        forall|j: int|
            t <= j < open_scopes(nodes, source, i, k).len() ==> (#[trigger] open_scopes(
                nodes,
                source,
                i,
                k,
            )[j]).0 >= nodes[i].depth,
    ensures
        open_scopes(nodes, source, i + 1, k) == open_scopes(nodes, source, i, k).take(t),
    decreases k,
{
    let now = open_scopes(nodes, source, i, k);
    if k > 0 {
        let outer = open_scopes(nodes, source, i, k - 1);
        let node = nodes[k - 1];
        assert(stays_open(nodes, k - 1, i + 1) <==> (stays_open(nodes, k - 1, i) && node.depth
            < nodes[i].depth)) by {
            if stays_open(nodes, k - 1, i + 1) {
                assert(nodes[k - 1].depth < nodes[i].depth);
            }
        }
        if opens_scope(node) && stays_open(nodes, k - 1, i) {
            assert(now == outer.push((node.depth, text_of(node.name->0, source))));
            assert(forall|j: int| 0 <= j < outer.len() ==> outer[j] == now[j]);
            assert(now[outer.len() as int].0 == node.depth);
            if node.depth < nodes[i].depth {
                assert(t == now.len());
                lemma_close_scopes(nodes, source, i, k - 1, t - 1);
                assert(outer.take(t - 1) =~= outer);
                assert(now.take(t) =~= now);
            } else {
                assert(t <= outer.len());
                lemma_close_scopes(nodes, source, i, k - 1, t);
                assert(now.take(t) =~= outer.take(t));
            }
        } else {
            lemma_close_scopes(nodes, source, i, k - 1, t);
        }
    } else {
        assert(now.take(t) =~= now);
    }
}

/// The functions that `nodes` define, in order.
pub fn collect_definitions(
    nodes: &Vec<SyntaxNode>,
    source: &str,
    module: &str,
    file: &str,
) -> (r: Vec<Symbol>)
    requires
        all_lie_in(node_views(nodes@), source@),
    ensures
        symbol_views(r@) == definitions(
            node_views(nodes@),
            source@,
            module@,
            file@,
            nodes@.len() as int,
        ),
{
    let ghost nv = node_views(nodes@);
    let mut r: Vec<Symbol> = Vec::new();
    let mut depths: Vec<usize> = Vec::new();
    let mut names: Vec<String> = Vec::new();
    let mut i: usize = 0;
    assert(symbol_views(r@) =~= Seq::empty());
    assert(stack_view(depths@, names@) =~= Seq::empty());
    while i < nodes.len()
        invariant
            i <= nodes@.len(),
            nv == node_views(nodes@),
            all_lie_in(nv, source@),
            depths@.len() == names@.len(),
            stack_view(depths@, names@) == open_scopes(nv, source@, i as int, i as int),
            symbol_views(r@) == definitions(nv, source@, module@, file@, i as int),
        decreases nodes@.len() - i,
    {
        let node = &nodes[i];
        let ghost before = stack_view(depths@, names@);
        assert(nv[i as int] == node@);
        assert(node_lies_in(nv[i as int], source@));
        proof {
            lemma_open_scopes_deepen(nv, source@, i as int, i as int);
        }
        while depths.len() > 0 && depths[depths.len() - 1] >= node.depth
            invariant
                depths@.len() == names@.len() <= before.len(),
                stack_view(depths@, names@) == before.take(depths@.len() as int),
                forall|j: int|
                    depths@.len() <= j < before.len() ==> (#[trigger] before[j]).0 >= node.depth,
            decreases depths@.len(),
        {
            let ghost n = depths@.len() as int;
            assert(stack_view(depths@, names@)[n - 1] == before[n - 1]);
            depths.pop();
            names.pop();
            assert(stack_view(depths@, names@) =~= before.take(n - 1));
        }
        proof {
            let t = depths@.len() as int;
            assert forall|j: int| 0 <= j < t implies (#[trigger] before[j]).0 < nv[i as int].depth by {
                assert(stack_view(depths@, names@)[t - 1] == before[t - 1]);
            }
            lemma_close_scopes(nv, source@, i as int, i as int, t);
            assert(views(names@) =~= scope(nv, source@, i as int));
        }
        let is_function = same(node.kind.as_str(), "function_definition");
        let is_class = same(node.kind.as_str(), "class_definition");
        if is_function || is_class {
            if let Some(part) = &node.name {
                let name = part_text(part, source);
                depths.push(node.depth);
                names.push(name);
                assert(views(names@) =~= scope(nv, source@, i as int).push(name@));
                assert(stack_view(depths@, names@) =~= before.take(depths@.len() - 1).push(
                    (node.depth as nat, name@),
                ));
                if is_function {
                    let ghost done = r@;
                    let symbol = Symbol {
                        module: module.to_owned(),
                        qualname: join(&names, "."),
                        file: file.to_owned(),
                        line: node.start_row + 1,
                        end_line: node.end_row + 1,
                    };
                    assert(symbol@ == definition(nv, source@, module@, file@, i as int));
                    r.push(symbol);
                    assert(symbol_views(r@) =~= symbol_views(done).push(symbol@));
                }
            }
        }
        i += 1;
    }
    r
}

/// The name that `node` calls, as far as the call spells one: `f` or `x.f`, or `f` where the
/// call goes to the attribute `f` of something that is not a mere name.
pub open spec fn callee_name(node: NodeView, source: Seq<char>) -> Option<Seq<char>> {
    match node.function {
        None => None,
        Some(function) => if function.kind == "identifier"@ {
            Some(text_of(function, source))
        } else if function.kind == "attribute"@ {
            match (node.attribute, node.object) {
                (None, _) => None,
                (Some(attribute), Some(object)) => if object.kind == "identifier"@ {
                    Some(dotted(text_of(object, source), text_of(attribute, source)))
                } else {
                    Some(text_of(attribute, source))
                },
                (Some(attribute), None) => Some(text_of(attribute, source)),
            }
        } else {
            None
        },
    }
}

/// The name that `node` calls, as far as the call spells one.
pub fn extract_callee_name(node: &SyntaxNode, source: &str) -> (r: Option<String>)
    requires
        node_lies_in(node@, source@),
    ensures
        match r {
            Some(name) => callee_name(node@, source@) == Some(name@),
            None => callee_name(node@, source@) is None,
        },
{
    let function = match &node.function {
        Some(function) => function,
        None => return None,
    };
    if same(function.kind.as_str(), "identifier") {
        return Some(part_text(function, source));
    }
    if !same(function.kind.as_str(), "attribute") {
        return None;
    }
    let attribute = match &node.attribute {
        Some(attribute) => part_text(attribute, source),
        None => return None,
    };
    if let Some(object) = &node.object {
        if same(object.kind.as_str(), "identifier") {
            let owner = part_text(object, source);
            return Some(join_dotted(owner.as_str(), attribute.as_str()));
        }
    }
    Some(attribute)
}

/// `symbol` covers `line`.
pub open spec fn covers(symbol: SymbolView, line: nat) -> bool {
    symbol.line <= line <= symbol.end_line
}

/// How many lines `symbol` covers, less one.
pub open spec fn extent(symbol: SymbolView) -> int {
    symbol.end_line - symbol.line
}

/// Symbol number `k` is the innermost one that covers `line`: the smallest, and the first of
/// the smallest ones.
pub open spec fn is_innermost(defined: Seq<SymbolView>, line: nat, k: int) -> bool {
    &&& 0 <= k < defined.len()
    &&& covers(defined[k], line)
    &&& forall|j: int|
        0 <= j < defined.len() && covers(#[trigger] defined[j], line) ==> extent(defined[k])
            <= extent(defined[j])
    &&& forall|j: int|
        0 <= j < k && covers(#[trigger] defined[j], line) ==> extent(defined[k]) < extent(
            defined[j],
        )
}

/// The qualified name of the innermost function around `line`, where there is one.
pub open spec fn enclosing_def(defined: Seq<SymbolView>, line: nat) -> Option<Seq<char>> {
    if exists|k: int| is_innermost(defined, line, k) {
        Some(defined[choose|k: int| is_innermost(defined, line, k)].qualname)
    } else {
        None
    }
}

/// The qualified name of the innermost function around `line`, where there is one.
pub fn find_enclosing_def(line: usize, defined: &Vec<Symbol>) -> (r: Option<String>)
    ensures
        match r {
            Some(name) => enclosing_def(symbol_views(defined@), line as nat) == Some(name@),
            None => enclosing_def(symbol_views(defined@), line as nat) is None,
        },
        r is None <==> forall|k: int|
            0 <= k < defined@.len() ==> !covers(#[trigger] symbol_views(defined@)[k], line as nat),
{
    let ghost dv = symbol_views(defined@);
    let mut best: Option<usize> = None;
    let mut i: usize = 0;
    while i < defined.len()
        invariant
            i <= defined@.len(),
            dv == symbol_views(defined@),
            match best {
                Some(b) => b < i && is_innermost(dv.take(i as int), line as nat, b as int),
                None => forall|k: int| 0 <= k < i ==> !covers(#[trigger] dv[k], line as nat),
            },
        decreases defined@.len() - i,
    {
        let d = &defined[i];
        let ghost before = dv.take(i as int);
        let ghost after = dv.take(i + 1);
        proof {
            assert(after[i as int] == d@);
            assert(forall|k: int| 0 <= k < i ==> after[k] == dv[k] && before[k] == dv[k]);
        }
        if line >= d.line && line <= d.end_line {
            match best {
                None => {
                    best = Some(i);
                    assert(is_innermost(after, line as nat, i as int));
                },
                Some(b) => {
                    let prev = &defined[b];
                    assert(before[b as int] == prev@);
                    assert(covers(prev@, line as nat));
                    if d.end_line - d.line < prev.end_line - prev.line {
                        best = Some(i);
                        assert(is_innermost(after, line as nat, i as int));
                    } else {
                        assert(is_innermost(after, line as nat, b as int));
                    }
                },
            }
        } else {
            if let Some(b) = best {
                assert(is_innermost(after, line as nat, b as int));
            }
        }
        i += 1;
    }
    assert(dv.take(i as int) =~= dv);
    match best {
        Some(b) => {
            proof {
                let k = choose|k: int| is_innermost(dv, line as nat, k);
                assert(is_innermost(dv, line as nat, b as int));
                assert(k == b);
                assert(covers(dv[b as int], line as nat));
            }
            Some(defined[b].qualname.clone())
        },
        None => None,
    }
}

/// The call that `node` makes, from the function around it, where there is one.
pub open spec fn call_of(
    node: NodeView,
    source: Seq<char>,
    defined: Seq<SymbolView>,
) -> Option<(Seq<char>, Seq<char>)> {
    if node.kind == "call"@ {
        match (callee_name(node, source), enclosing_def(defined, node.start_row + 1)) {
            (Some(callee), Some(caller)) => Some((caller, callee)),
            _ => None,
        }
    } else {
        None
    }
}

/// The calls that the first `n` nodes make from functions, in order.
pub open spec fn calls_of(
    nodes: Seq<NodeView>,
    source: Seq<char>,
    defined: Seq<SymbolView>,
    n: int,
) -> Seq<(Seq<char>, Seq<char>)>
    decreases n,
{
    if n <= 0 {
        Seq::empty()
    } else {
        let before = calls_of(nodes, source, defined, n - 1);
        match call_of(nodes[n - 1], source, defined) {
            Some(call) => before.push(call),
            None => before,
        }
    }
}

/// The calls that `nodes` make from the functions of `defined`, in order.
pub fn collect_calls(nodes: &Vec<SyntaxNode>, source: &str, defined: &Vec<Symbol>) -> (r: Vec<
    (String, String),
>)
    requires
        all_lie_in(node_views(nodes@), source@),
    ensures
        call_views(r@) == calls_of(
            node_views(nodes@),
            source@,
            symbol_views(defined@),
            nodes@.len() as int,
        ),
{
    let ghost nv = node_views(nodes@);
    let ghost dv = symbol_views(defined@);
    let mut r: Vec<(String, String)> = Vec::new();
    let mut i: usize = 0;
    assert(call_views(r@) =~= Seq::empty());
    while i < nodes.len()
        invariant
            i <= nodes@.len(),
            nv == node_views(nodes@),
            dv == symbol_views(defined@),
            all_lie_in(nv, source@),
            call_views(r@) == calls_of(nv, source@, dv, i as int),
        decreases nodes@.len() - i,
    {
        let node = &nodes[i];
        assert(nv[i as int] == node@);
        assert(node_lies_in(nv[i as int], source@));
        if same(node.kind.as_str(), "call") {
            if let Some(callee) = extract_callee_name(node, source) {
                if let Some(caller) = find_enclosing_def(node.start_row + 1, defined) {
                    let ghost done = r@;
                    let ghost call = (caller@, callee@);
                    r.push((caller, callee));
                    assert(call_views(r@) =~= call_views(done).push(call));
                }
            }
        }
        i += 1;
    }
    r
}

/// What a file defines and calls, of which the parser gave `nodes`.
pub open spec fn file_symbols(
    nodes: Seq<NodeView>,
    source: Seq<char>,
    module: Seq<char>,
    file: Seq<char>,
) -> FileView {
    let defined = definitions(nodes, source, module, file, nodes.len() as int);
    FileView { defined, calls: calls_of(nodes, source, defined, nodes.len() as int) }
}

/// What the file at `file` defines and calls, of which the parser gave `nodes`.
pub fn symbols_of_nodes(nodes: &Vec<SyntaxNode>, source: &str, module: &str, file: &str) -> (r:
    FileSymbols)
    requires
        all_lie_in(node_views(nodes@), source@),
    ensures
        r@ == file_symbols(node_views(nodes@), source@, module@, file@),
{
    let defined = collect_definitions(nodes, source, module, file);
    let calls = collect_calls(nodes, source, &defined);
    FileSymbols { defined, calls }
}

/// What came out of parsing a file.
pub open spec fn outcome(r: Result<FileSymbols, ParseError>) -> Result<FileView, ParseError> {
    match r {
        Ok(symbols) => Ok(symbols@),
        Err(e) => Err(e),
    }
}

/// `r` comes out of parsing the file at `path`, which holds `source`, in the repository at
/// `repo_root`.
pub open spec fn is_outcome(
    r: Result<FileView, ParseError>,
    path: Seq<char>,
    repo_root: Seq<char>,
    source: Seq<char>,
) -> bool {
    if encode_utf8(source).len() > u32::MAX {
        r == Err::<FileView, ParseError>(ParseError::TooLong)
    } else {
        match python_nodes(source) {
            Err(e) => r == Err::<FileView, ParseError>(e),
            Ok(nodes) => if all_lie_in(nodes, source) {
                exists|module: Seq<char>| #[trigger]
                    is_module_at(module, path, repo_root) && r == Ok::<FileView, ParseError>(
                        file_symbols(nodes, source, module, path),
                    )
            } else {
                r == Err::<FileView, ParseError>(ParseError::Span)
            },
        }
    }
}

/// What the file at `path` defines and calls, in the repository at `repo_root`.
pub fn parse_file(path: &str, repo_root: &str, source: &str) -> (r: Result<FileSymbols, ParseError>)
    ensures
        is_outcome(outcome(r), path@, repo_root@, source@),
{
    let nodes = match syntax_nodes(source) {
        Ok(nodes) => nodes,
        Err(e) => return Err(e),
    };
    if !check_nodes(&nodes, source) {
        return Err(ParseError::Span);
    }
    let module = module_from_path(path, repo_root);
    let r = symbols_of_nodes(&nodes, source, module.as_str(), path);
    Ok(r)
}

} // verus!
