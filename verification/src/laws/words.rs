//! What names and texts are made of.
use crate::callgraph::{ends_in_parts, file_views, table_view};
use crate::git::{failure_views, hunk_views, Hunk};
use crate::names::{listed, members, NameMap, NameSet};
use crate::parser::{call_views, outcome, symbol_views, FileSymbols, FileView, Symbol};
use crate::paths::opt_view;
use crate::scorer::{score_views, RiskScore};
use crate::syntax::{node_views, part_view, ParseError, Part, SyntaxNode};
use crate::text::{
    dotted, has_infix, infix_at, joined, lemma_last_dot_is, qualifier, separators_to_dots,
    short_name, views, without_prefix, without_suffix,
};
use vstd::prelude::*;

verus! {

/// Two names with a dot between them: the first, the dot and the second stand one behind the other.
pub proof fn law_dotted(a: Seq<char>, b: Seq<char>)
    ensures
        dotted(a, b).len() == a.len() + 1 + b.len(),
        dotted(a, b).take(a.len() as int) == a,
        dotted(a, b)[a.len() as int] == '.',
        dotted(a, b).skip(a.len() as int + 1) == b,
{
    assert(dotted(a, b).take(a.len() as int) =~= a);
    assert(dotted(a, b).skip(a.len() as int + 1) =~= b);
}

/// A name is cut at its last dot: what has no dot in it follows, and all else precedes.
pub proof fn law_name_is_cut_at_its_last_dot(a: Seq<char>, b: Seq<char>)
    requires
        !b.contains('.'),
    ensures
        short_name(a + seq!['.'] + b) == b,
        qualifier(a + seq!['.'] + b) == Some(a),
        short_name(b) == b,
        qualifier(b) is None,
{
    let s = a + seq!['.'] + b;
    assert(s[a.len() as int] == '.');
    assert forall|i: int| a.len() < i < s.len() implies s[i] != '.' by {
        assert(s[i] == b[i - a.len() - 1]);
        assert(b.contains(b[i - a.len() - 1]));
    }
    lemma_last_dot_is(s, a.len() as int);
    assert(s.skip(a.len() as int + 1) =~= b);
    assert(s.take(a.len() as int) =~= a);
    assert forall|i: int| -1 < i < b.len() implies b[i] != '.' by {
        assert(b.contains(b[i]));
    }
    lemma_last_dot_is(b, -1);
    assert(b.skip(0) =~= b);
}

/// A text holds a part exactly where it is that part with something before and something behind
/// it, be it nothing.
pub proof fn law_infix(s: Seq<char>, part: Seq<char>)
    ensures
        has_infix(s, part) <==> exists|a: Seq<char>, b: Seq<char>| s == #[trigger] (a + part + b),
{
    if has_infix(s, part) {
        let i = choose|i: int| infix_at(s, part, i);
        let (a, b) = (s.take(i), s.skip(i + part.len()));
        assert(s =~= a + part + b) by {
            assert forall|k: int| 0 <= k < s.len() implies s[k] == (a + part + b)[k] by {
                if i <= k < i + part.len() {
                    assert(s.subrange(i, i + part.len())[k - i] == part[k - i]);
                }
            }
        }
    }
    if exists|a: Seq<char>, b: Seq<char>| s == #[trigger] (a + part + b) {
        let (a, b) = choose|a: Seq<char>, b: Seq<char>| s == #[trigger] (a + part + b);
        assert(s.subrange(a.len() as int, (a.len() + part.len()) as int) =~= part);
        assert(infix_at(s, part, a.len() as int));
    }
}

/// An ending is taken off where it is there, and where it is not, nothing is.
pub proof fn law_without_suffix(s: Seq<char>, end: Seq<char>)
    ensures
        without_suffix(s + end, end) == s,
        (forall|a: Seq<char>| #[trigger] (a + end) != s) ==> without_suffix(s, end) == s,
{
    let all = s + end;
    assert(all.subrange(all.len() - end.len(), all.len() as int) =~= end);
    assert(all.take(all.len() - end.len()) =~= s);
    if end.is_suffix_of(s) {
        assert(s =~= s.take(s.len() - end.len()) + end);
    }
}

/// A beginning is taken off where it is there, and where it is not, nothing is.
pub proof fn law_without_prefix(s: Seq<char>, start: Seq<char>)
    ensures
        without_prefix(start + s, start) == s,
        (forall|b: Seq<char>| #[trigger] (start + b) != s) ==> without_prefix(s, start) == s,
{
    let all = start + s;
    assert(all.subrange(0, start.len() as int) =~= start);
    assert(all.skip(start.len() as int) =~= s);
    if start.is_prefix_of(s) {
        assert(s =~= start + s.skip(start.len() as int));
    }
}

/// Slashes of both kinds become dots, and nothing else changes.
pub proof fn law_separators_become_dots(path: Seq<char>, i: int)
    requires
        0 <= i < path.len(),
    ensures
        separators_to_dots(path).len() == path.len(),
        separators_to_dots(path)[i] == if path[i] == '/' || path[i] == '\\' {
            '.'
        } else {
            path[i]
        },
{
}

/// Texts are joined with the separator between them, and nowhere else.
pub proof fn law_joined(a: Seq<Seq<char>>, b: Seq<Seq<char>>, x: Seq<char>, separator: Seq<char>)
    ensures
        joined(Seq::empty(), separator) == Seq::<char>::empty(),
        joined(seq![x], separator) == x,
        a.len() > 0 && b.len() > 0 ==> joined(a + b, separator) == joined(a, separator) + separator
            + joined(b, separator),
    decreases b.len(),
{
    if a.len() > 0 && b.len() > 0 {
        let all = a + b;
        assert(all.drop_last() =~= a + b.drop_last());
        assert(all.last() == b.last());
        if b.len() == 1 {
            assert(all.drop_last() =~= a);
        } else {
            law_joined(a, b.drop_last(), x, separator);
            assert(joined(all, separator) =~= joined(a, separator) + separator + joined(
                b,
                separator,
            ));
        }
    }
}

/// A dotted name ends in the parts of another where it is that name, or has something and a dot
/// before it; a part of a name is no end.
pub proof fn law_ends_in_parts(s: Seq<char>, end: Seq<char>)
    ensures
        ends_in_parts(s, end) <==> s == end || exists|a: Seq<char>| s == #[trigger] (a + seq!['.']
            + end),
{
    let tail = seq!['.'].add(end);
    if tail.is_suffix_of(s) {
        let a = s.take(s.len() - tail.len());
        assert(s =~= a + seq!['.'] + end) by {
            let cut = s.subrange(s.len() - tail.len(), s.len() as int);
            assert forall|k: int| 0 <= k < s.len() implies s[k] == (a + seq!['.'] + end)[k] by {
                if k >= a.len() {
                    assert(cut[k - a.len()] == tail[k - a.len()]);
                }
            }
        }
    }
    if exists|a: Seq<char>| s == #[trigger] (a + seq!['.'] + end) {
        let a = choose|a: Seq<char>| s == #[trigger] (a + seq!['.'] + end);
        assert(s.subrange(s.len() - tail.len(), s.len() as int) =~= tail);
        assert(tail.is_suffix_of(s));
    }
}

/// What is said of a symbol is what its fields hold, and its full name is that of its module, a
/// dot and its qualified name.
pub proof fn law_symbol(s: Symbol)
    ensures
        s@.module == s.module@,
        s@.qualname == s.qualname@,
        s@.file == s.file@,
        s@.line == s.line,
        s@.end_line == s.end_line,
        s@.full_name() == s.module@ + seq!['.'] + s.qualname@,
{
    law_dotted(s.module@, s.qualname@);
    let full = s@.full_name();
    assert(full =~= full.take(s.module@.len() as int) + seq![full[s.module@.len() as int]]
        + full.skip(s.module@.len() as int + 1));
}

/// What is said of a file is what its lists hold, in their order.
pub proof fn law_file(f: FileSymbols, i: int)
    ensures
        f@.defined.len() == f.defined@.len(),
        f@.calls.len() == f.calls@.len(),
        0 <= i < f.defined@.len() ==> f@.defined[i] == f.defined@[i]@,
        0 <= i < f.calls@.len() ==> f@.calls[i] == (f.calls@[i].0@, f.calls@[i].1@),
        outcome(Ok(f)) == Ok::<FileView, ParseError>(f@),
{
}

/// Lists say of each of their elements what it says, in their order.
pub proof fn law_lists(
    strings: Seq<String>,
    symbols: Seq<Symbol>,
    calls: Seq<(String, String)>,
    files: Seq<FileSymbols>,
    scores: Seq<RiskScore>,
    hunks: Seq<Hunk>,
    nodes: Seq<SyntaxNode>,
    failures: Seq<(String, ParseError)>,
    i: int,
)
    ensures
        views(strings).len() == strings.len(),
        0 <= i < strings.len() ==> views(strings)[i] == strings[i]@,
        symbol_views(symbols).len() == symbols.len(),
        0 <= i < symbols.len() ==> symbol_views(symbols)[i] == symbols[i]@,
        call_views(calls).len() == calls.len(),
        0 <= i < calls.len() ==> call_views(calls)[i] == (calls[i].0@, calls[i].1@),
        file_views(files).len() == files.len(),
        0 <= i < files.len() ==> file_views(files)[i] == files[i]@,
        score_views(scores).len() == scores.len(),
        0 <= i < scores.len() ==> score_views(scores)[i] == scores[i]@,
        hunk_views(hunks).len() == hunks.len(),
        0 <= i < hunks.len() ==> hunk_views(hunks)[i] == hunks[i]@,
        node_views(nodes).len() == nodes.len(),
        0 <= i < nodes.len() ==> node_views(nodes)[i] == nodes[i]@,
        failure_views(failures).len() == failures.len(),
        0 <= i < failures.len() ==> failure_views(failures)[i] == (failures[i].0@, failures[i].1),
{
}

/// What is said of a score, a hunk and a node is what their fields hold.
pub proof fn law_fields(s: RiskScore, h: Hunk, n: SyntaxNode, p: Part)
    ensures
        s@.symbol == s.symbol@,
        s@.direct_callers == s.direct_callers,
        s@.transitive_callers == s.transitive_callers,
        s@.modules_affected == s.modules_affected,
        s@.uncovered_callers == s.uncovered_callers,
        s@.uncovered_ratio == s.uncovered_ratio,
        s@.percentile == s.percentile,
        s@.score == s.score,
        h@.path == h.path@,
        h@.new_start == h.new_start,
        h@.new_lines == h.new_lines,
        n@.kind == n.kind@,
        n@.depth == n.depth,
        n@.start_row == n.start_row,
        n@.end_row == n.end_row,
        n@.name is Some <==> n.name is Some,
        n@.function is Some <==> n.function is Some,
        n@.attribute is Some <==> n.attribute is Some,
        n@.object is Some <==> n.object is Some,
        n.name is Some ==> n@.name == Some(n.name->0@),
        n.function is Some ==> n@.function == Some(n.function->0@),
        n.attribute is Some ==> n@.attribute == Some(n.attribute->0@),
        n.object is Some ==> n@.object == Some(n.object->0@),
        p@.kind == p.kind@,
        p@.start == p.start,
        p@.end == p.end,
        part_view(Some(p)) == Some(p@),
        part_view(None) is None,
{
}

/// A set of names has the names that it lists as members. A map has the names that it lists as
/// keys, each with the value that stands in its place.
pub proof fn law_collections<V>(set: NameSet, map: NameMap<V>, name: Seq<char>, i: int)
    ensures
        set@.contains(name) <==> set.order().contains(name),
        map@.contains_key(name) <==> map.order().contains(name),
        0 <= i < map.order().len() && map.order().no_duplicates() ==> map@[map.order()[i]]
            == map.contents()[i],
{
    if 0 <= i < map.order().len() && map.order().no_duplicates() {
        let k = map.order().index_of(map.order()[i]);
        assert(map.order().contains(map.order()[i]));
        assert(map.order()[k] == map.order()[i]);
    }
}

/// What a name maps to, where it maps to something; else nothing.
pub proof fn law_lookups<T>(
    sets: Map<Seq<char>, NameSet>,
    lists: Map<Seq<char>, Vec<T>>,
    symbols: Map<Seq<char>, Symbol>,
    name: Seq<char>,
    x: Seq<char>,
)
    ensures
        members(sets, name).contains(x) <==> sets.contains_key(name) && sets[name]@.contains(x),
        lists.contains_key(name) ==> listed(lists, name) == lists[name]@,
        !lists.contains_key(name) ==> listed(lists, name).len() == 0,
        table_view(symbols).contains_key(name) <==> symbols.contains_key(name),
        symbols.contains_key(name) ==> table_view(symbols)[name] == symbols[name]@,
{
}

/// A text that may be missing is there where the string is, and is its text.
pub proof fn law_optional_text(s: String)
    ensures
        opt_view(Some(s)) == Some(s@),
        opt_view(None) is None,
{
}

} // verus!
