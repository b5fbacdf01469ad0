//! What is read off the syntax tree of a file.
use crate::parser::{
    call_of, callee_name, calls_of, definition, definitions, enclosing_def, file_symbols,
    is_innermost, is_outcome, open_scopes, scope, stays_open, FileView, SymbolView,
};
use crate::paths::is_module_at;
use crate::syntax::{
    all_lie_in, lemma_boundary_in_rest, lies_in, python_nodes, text_of, NodeView, ParseError,
    PartView,
};
use crate::text::joined;
use vstd::prelude::*;
use vstd::utf8::*;

verus! {

/// The text of a part of a file is what stands between its first byte and its last.
pub proof fn law_text_of_part(part: PartView, source: Seq<char>)
    requires
        lies_in(part, source),
    ensures
        exists|a: Seq<char>, b: Seq<char>|
            source == #[trigger] (a + text_of(part, source) + b) && encode_utf8(a).len()
                == part.start && encode_utf8(text_of(part, source)).len() == part.end - part.start,
{
    let bytes = encode_utf8(source);
    let (s, e) = (part.start as int, part.end as int);
    encode_utf8_valid_utf8(source);
    encode_utf8_decode_utf8(source);
    lemma_boundary_in_rest(bytes, s, e);
    valid_utf8_split(bytes, s);
    decode_utf8_split(bytes, s);
    let rest = bytes.subrange(s, bytes.len() as int);
    valid_utf8_split(rest, e - s);
    decode_utf8_split(rest, e - s);
    let cut = rest.subrange(0, e - s);
    assert(cut =~= bytes.subrange(s, e));
    let (a, b) = (
        decode_utf8(bytes.subrange(0, s)),
        decode_utf8(rest.subrange(e - s, rest.len() as int)),
    );
    decode_utf8_encode_utf8(bytes.subrange(0, s));
    decode_utf8_encode_utf8(cut);
    assert(source =~= a + text_of(part, source) + b);
}

/// What a call names: the function, where it is a mere name; the object, a dot and the attribute,
/// where it is an attribute of a mere name, whatever that is; the attribute alone, where it is one
/// of something else; and nothing otherwise.
pub proof fn law_called_name(node: NodeView, source: Seq<char>, f: PartView, a: PartView, o: PartView)
    ensures
        node.function is None ==> callee_name(node, source) is None,
        node.function == Some(f) && f.kind == "identifier"@ ==> callee_name(node, source) == Some(
            text_of(f, source),
        ),
        node.function == Some(f) && f.kind == "attribute"@ && node.attribute == Some(a)
            && node.object == Some(o) && o.kind == "identifier"@ ==> callee_name(node, source)
            == Some(text_of(o, source) + seq!['.'] + text_of(a, source)),
        node.function == Some(f) && f.kind == "attribute"@ && node.attribute == Some(a) && (
        node.object is None || (node.object == Some(o) && o.kind != "identifier"@))
            ==> callee_name(node, source) == Some(text_of(a, source)),
        node.function == Some(f) && f.kind == "attribute"@ && node.attribute is None
            ==> callee_name(node, source) is None,
        node.function == Some(f) && f.kind != "attribute"@ && f.kind != "identifier"@
            ==> callee_name(node, source) is None,
{
    reveal_strlit("identifier");
    reveal_strlit("attribute");
    assert("identifier"@.len() == 10 && "attribute"@.len() == 9);
}

/// Node number `a` stands around node number `i`: `i` comes behind it, and all from there up to
/// `i` is deeper.
pub open spec fn is_around(nodes: Seq<NodeView>, a: int, i: int) -> bool {
    0 <= a < i && forall|j: int| a < j <= i ==> (#[trigger] nodes[j]).depth > nodes[a].depth
}

/// The node is a class or a function with a name.
pub open spec fn is_named_scope(node: NodeView) -> bool {
    (node.kind == "class_definition"@ || node.kind == "function_definition"@) && node.name is Some
}

/// `around` are the classes and functions with a name that stand around node number `i`, from the
/// outside in.
pub open spec fn are_scopes(nodes: Seq<NodeView>, around: Seq<int>, i: int, k: int) -> bool {
    &&& forall|x: int, y: int| 0 <= x < y < around.len() ==> around[x] < around[y]
    &&& forall|a: int| #[trigger]
        around.contains(a) <==> a < k && is_around(nodes, a, i) && is_named_scope(nodes[a])
}

proof fn lemma_scopes(nodes: Seq<NodeView>, source: Seq<char>, i: int, k: int) -> (around: Seq<int>)
    requires
        0 <= k <= i < nodes.len(),
    ensures
        are_scopes(nodes, around, i, k),
        open_scopes(nodes, source, i + 1, k).len() == around.len(),
        forall|x: int|
            0 <= x < around.len() ==> (#[trigger] open_scopes(nodes, source, i + 1, k)[x]).1
                == text_of(nodes[around[x]].name->0, source),
    decreases k,
{
    if k == 0 {
        let around = Seq::<int>::empty();
        assert(are_scopes(nodes, around, i, k));
        around
    } else {
        let before = lemma_scopes(nodes, source, i, k - 1);
        let outer = open_scopes(nodes, source, i + 1, k - 1);
        let open = stays_open(nodes, k - 1, i + 1);
        assert(open <==> is_around(nodes, k - 1, i)) by {
            if open {
                assert forall|j: int| k - 1 < j <= i implies (#[trigger] nodes[j]).depth > nodes[k
                    - 1].depth by {}
            }
        }
        if is_named_scope(nodes[k - 1]) && open {
            let around = before.push(k - 1);
            assert forall|x: int, y: int| 0 <= x < y < around.len() implies around[x] < around[y] by {
                if y == before.len() {
                    assert(before.contains(before[x]));
                }
            }
            assert forall|a: int| #[trigger]
                around.contains(a) <==> a < k && is_around(nodes, a, i) && is_named_scope(
                    nodes[a],
                ) by {
                if before.contains(a) {
                    let x = choose|x: int| 0 <= x < before.len() && before[x] == a;
                    assert(around[x] == a);
                }
                if a == k - 1 {
                    assert(around[before.len() as int] == a);
                }
                if around.contains(a) && a != k - 1 {
                    let x = choose|x: int| 0 <= x < around.len() && around[x] == a;
                    assert(before[x] == a);
                }
            }
            assert forall|x: int| 0 <= x < around.len() implies (#[trigger] open_scopes(
                nodes,
                source,
                i + 1,
                k,
            )[x]).1 == text_of(nodes[around[x]].name->0, source) by {
                if x < before.len() {
                    assert(outer[x].1 == text_of(nodes[before[x]].name->0, source));
                }
            }
            around
        } else {
            assert forall|a: int| #[trigger]
                before.contains(a) <==> a < k && is_around(nodes, a, i) && is_named_scope(
                    nodes[a],
                ) by {}
            before
        }
    }
}

/// A function is defined where a node says so and names it. Its qualified name is made of the names
/// of all classes and functions around it, from the outside in, and its own, with dots between
/// them; its lines are counted from 1; its module and file are those of the file.
pub proof fn law_definition(
    nodes: Seq<NodeView>,
    source: Seq<char>,
    module: Seq<char>,
    file: Seq<char>,
    i: int,
)
    requires
        0 <= i < nodes.len(),
    ensures
        ({
            let d = definition(nodes, source, module, file, i);
            &&& d.module == module
            &&& d.file == file
            &&& d.line == nodes[i].start_row + 1
            &&& d.end_line == nodes[i].end_row + 1
            &&& exists|around: Seq<int>| #[trigger]
                are_scopes(nodes, around, i, i) && d.qualname == joined(
                    around.map_values(|a: int| text_of(nodes[a].name->0, source)).push(
                        text_of(nodes[i].name->0, source),
                    ),
                    seq!['.'],
                )
        }),
{
    let around = lemma_scopes(nodes, source, i, i);
    reveal_strlit(".");
    assert("."@ =~= seq!['.']);
    assert(scope(nodes, source, i) =~= around.map_values(
        |a: int| text_of(nodes[a].name->0, source),
    ));
}

/// Each node that defines a function gives one definition, in the order of the nodes, and no other
/// node gives any.
pub proof fn law_definitions(
    nodes: Seq<NodeView>,
    source: Seq<char>,
    module: Seq<char>,
    file: Seq<char>,
    n: int,
)
    requires
        n >= 0,
    ensures
        definitions(nodes, source, module, file, 0).len() == 0,
        definitions(nodes, source, module, file, n + 1) == if nodes[n].kind
            == "function_definition"@ && nodes[n].name is Some {
            definitions(nodes, source, module, file, n).push(
                definition(nodes, source, module, file, n),
            )
        } else {
            definitions(nodes, source, module, file, n)
        },
{
}

/// The function around a line is one whose lines hold it: one with the fewest lines, and the first
/// of these. There is none exactly where the lines of no function hold it.
pub proof fn law_function_around_line(defined: Seq<SymbolView>, line: nat)
    ensures
        enclosing_def(defined, line) is None <==> forall|j: int|
            0 <= j < defined.len() ==> !((#[trigger] defined[j]).line <= line
                <= defined[j].end_line),
        enclosing_def(defined, line) is Some ==> exists|k: int|
            0 <= k < defined.len() && #[trigger] is_smallest_around(defined, line, k)
                && enclosing_def(defined, line) == Some(defined[k].qualname),
{
    if exists|k: int| is_innermost(defined, line, k) {
        let k = choose|k: int| is_innermost(defined, line, k);
        assert(is_smallest_around(defined, line, k));
        assert(defined[k].line <= line <= defined[k].end_line);
    } else if !(forall|j: int|
        0 <= j < defined.len() ==> !((#[trigger] defined[j]).line <= line
            <= defined[j].end_line)) {
        let j = choose|j: int|
            0 <= j < defined.len() && (#[trigger] defined[j]).line <= line <= defined[j].end_line;
        let k = lemma_smallest_exists(defined, line, j);
        assert(is_innermost(defined, line, k));
    }
}

/// Definition number `k` holds the line, none that holds it has fewer lines, and none before it has
/// as few.
pub open spec fn is_smallest_around(defined: Seq<SymbolView>, line: nat, k: int) -> bool {
    &&& defined[k].line <= line <= defined[k].end_line
    &&& forall|j: int|
        0 <= j < defined.len() && (#[trigger] defined[j]).line <= line <= defined[j].end_line
            ==> defined[k].end_line - defined[k].line <= defined[j].end_line - defined[j].line
    &&& forall|j: int|
        0 <= j < k && (#[trigger] defined[j]).line <= line <= defined[j].end_line
            ==> defined[k].end_line - defined[k].line < defined[j].end_line - defined[j].line
}

proof fn lemma_smallest_exists(defined: Seq<SymbolView>, line: nat, j: int) -> (k: int)
    requires
        0 <= j < defined.len(),
        defined[j].line <= line <= defined[j].end_line,
    ensures
        0 <= k < defined.len(),
        is_smallest_around(defined, line, k),
    decreases defined[j].end_line - defined[j].line, j,
{
    let size = defined[j].end_line - defined[j].line;
    if exists|i: int|
        0 <= i < defined.len() && (#[trigger] defined[i]).line <= line <= defined[i].end_line && (
        defined[i].end_line - defined[i].line < size || (i < j && defined[i].end_line
            - defined[i].line == size)) {
        let i = choose|i: int|
            0 <= i < defined.len() && (#[trigger] defined[i]).line <= line <= defined[i].end_line
                && (defined[i].end_line - defined[i].line < size || (i < j && defined[i].end_line
                - defined[i].line == size));
        lemma_smallest_exists(defined, line, i)
    } else {
        j
    }
}

/// Each call with a name, made in a function, is listed with the function around the line that it
/// starts on, in the order of the nodes; nothing else is.
pub proof fn law_calls(nodes: Seq<NodeView>, source: Seq<char>, defined: Seq<SymbolView>, n: int)
    requires
        n >= 0,
    ensures
        calls_of(nodes, source, defined, 0).len() == 0,
        ({
            let caller = enclosing_def(defined, nodes[n].start_row + 1);
            let callee = callee_name(nodes[n], source);
            calls_of(nodes, source, defined, n + 1) == if nodes[n].kind == "call"@ && caller is Some
                && callee is Some {
                calls_of(nodes, source, defined, n).push((caller->0, callee->0))
            } else {
                calls_of(nodes, source, defined, n)
            }
        }),
{
    assert(call_of(nodes[n], source, defined) is Some <==> nodes[n].kind == "call"@
        && enclosing_def(defined, nodes[n].start_row + 1) is Some && callee_name(nodes[n], source)
        is Some);
}

/// A file has the definitions and the calls of all its nodes.
pub proof fn law_file_symbols(
    nodes: Seq<NodeView>,
    source: Seq<char>,
    module: Seq<char>,
    file: Seq<char>,
)
    ensures
        ({
            let f = file_symbols(nodes, source, module, file);
            &&& f.defined == definitions(nodes, source, module, file, nodes.len() as int)
            &&& f.calls == calls_of(nodes, source, f.defined, nodes.len() as int)
        }),
{
}

/// A file that is not too long, that the parser takes and whose nodes lie in it has the symbols of
/// these nodes, under the module of its path. Each other file has the error that goes with it.
pub proof fn law_parsed_file(
    r: Result<FileView, ParseError>,
    path: Seq<char>,
    repo_root: Seq<char>,
    source: Seq<char>,
    nodes: Seq<NodeView>,
    e: ParseError,
)
    requires
        is_outcome(r, path, repo_root, source),
    ensures
        encode_utf8(source).len() > u32::MAX ==> r == Err::<FileView, ParseError>(
            ParseError::TooLong,
        ),
        encode_utf8(source).len() <= u32::MAX && python_nodes(source) == Err::<
            Seq<NodeView>,
            ParseError,
        >(e) ==> r == Err::<FileView, ParseError>(e),
        encode_utf8(source).len() <= u32::MAX && python_nodes(source) == Ok::<
            Seq<NodeView>,
            ParseError,
        >(nodes) && !all_lie_in(nodes, source) ==> r == Err::<FileView, ParseError>(
            ParseError::Span,
        ),
        encode_utf8(source).len() <= u32::MAX && python_nodes(source) == Ok::<
            Seq<NodeView>,
            ParseError,
        >(nodes) && all_lie_in(nodes, source) ==> exists|module: Seq<char>| #[trigger]
            is_module_at(module, path, repo_root) && r == Ok::<FileView, ParseError>(
                file_symbols(nodes, source, module, path),
            ),
{
}

/// Nodes lie in a text where their rows can be counted from 1 and each part that they name covers
/// whole characters of it.
pub proof fn law_nodes_lie_in_text(nodes: Seq<NodeView>, source: Seq<char>)
    ensures
        all_lie_in(nodes, source) <==> forall|i: int|
            0 <= i < nodes.len() ==> (#[trigger] nodes[i]).start_row < usize::MAX
                && nodes[i].end_row < usize::MAX && fits_in(nodes[i].name, source) && fits_in(
                nodes[i].function,
                source,
            ) && fits_in(nodes[i].attribute, source) && fits_in(nodes[i].object, source),
{
    if !all_lie_in(nodes, source) {
        let i = choose|i: int|
            0 <= i < nodes.len() && !crate::syntax::node_lies_in(#[trigger] nodes[i], source);
        assert(nodes[i] == nodes[i]);
    }
}

/// The part, where there is one, starts and ends between two characters of the text.
pub open spec fn fits_in(part: Option<PartView>, source: Seq<char>) -> bool {
    let bytes = encode_utf8(source);
    part is Some ==> part->0.start <= part->0.end <= bytes.len() && is_char_boundary(
        bytes,
        part->0.start as int,
    ) && is_char_boundary(bytes, part->0.end as int)
}

} // verus!
