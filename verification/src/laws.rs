//! What holds of the library as a whole.
pub mod diff;
pub mod graph;
pub mod numbers;
pub mod risk;
pub mod places;
pub mod report;
pub mod tree;
pub mod words;

use crate::binary64::{
    lemma_exceeds_half, lemma_hundredth_more, lemma_nearest_bound, lemma_of_int, lemma_quotient,
    lemma_reaches_nine_tenths, lemma_reaches_three_quarters, lemma_size, lemma_times,
    lemma_times_keeps_order, lemma_times_one, of_int, one, quotient, Binary64, LEAST_MANTISSA,
};
use crate::callgraph::{
    all_defined, call_edge, calls, ends_in_parts, exactly, in_class, in_module, is_function,
    namesake_methods, own_methods, resolution, symbol_table, top_level, CallGraph, RepoBaseline,
};
use crate::git::{
    all_touched, changed_lines, hunk_ranges, is_python, overlaps, touched, HunkView, SourceFile,
    WHOLE_FILE,
};
use crate::names::{lemma_next_kept, listed, members, NameSet};
use crate::order::{count_up_to, lemma_count_up_to};
use crate::output::percent;
use crate::parser::{
    calls_of, definitions, file_symbols, is_innermost, FileView, SymbolView,
};
use crate::paths::module_name;
use crate::reach::{is_chain_between, is_step, leads};
use crate::scorer::{
    assessment, at_least_one, is_ranking, lemma_weighted, path_in, tested_module, ScoreView,
};
use crate::syntax::{NodeView, ParseError};
use crate::text::{
    dotted, has_infix, last_dot, lemma_last_dot, lemma_last_dot_is, qualifier, separators_to_dots, short_name,
    without_suffix,
};
use vstd::prelude::*;

verus! {

/// Definition number `i` of file number `f` is called `name`.
pub open spec fn is_defined_at(files: Seq<FileView>, name: Seq<char>, f: int, i: int) -> bool {
    0 <= f < files.len() && 0 <= i < files[f].defined.len() && files[f].defined[i].full_name()
        == name
}

proof fn lemma_all_defined(files: Seq<FileView>, f: int, i: int)
    requires
        0 <= f < files.len(),
        0 <= i < files[f].defined.len(),
    ensures
        all_defined(files).contains(files[f].defined[i]),
    decreases files.len(),
{
    let all = all_defined(files);
    let front = files.drop_last();
    let before = all_defined(front);
    if f == files.len() - 1 {
        assert(all[before.len() + i] == files[f].defined[i]);
    } else {
        lemma_all_defined(front, f, i);
        let k = choose|k: int| 0 <= k < before.len() && before[k] == front[f].defined[i];
        assert(all[k] == files[f].defined[i]);
    }
}

proof fn lemma_defined_somewhere(files: Seq<FileView>, s: SymbolView) -> (at: (int, int))
    requires
        all_defined(files).contains(s),
    ensures
        0 <= at.0 < files.len(),
        0 <= at.1 < files[at.0].defined.len(),
        files[at.0].defined[at.1] == s,
    decreases files.len(),
{
    let all = all_defined(files);
    let k = choose|k: int| 0 <= k < all.len() && all[k] == s;
    let front = files.drop_last();
    let before = all_defined(front);
    if k < before.len() {
        assert(before[k] == s);
        lemma_defined_somewhere(front, s)
    } else {
        assert(files.last().defined[k - before.len()] == s);
        (files.len() - 1, k - before.len())
    }
}

proof fn lemma_table(defined: Seq<SymbolView>, name: Seq<char>)
    ensures
        symbol_table(defined).contains_key(name) <==> exists|i: int|
            0 <= i < defined.len() && (#[trigger] defined[i]).full_name() == name,
        symbol_table(defined).contains_key(name) ==> defined.contains(symbol_table(defined)[name])
            && symbol_table(defined)[name].full_name() == name,
    decreases defined.len(),
{
    if defined.len() > 0 {
        let front = defined.drop_last();
        lemma_table(front, name);
        let last = defined.last();
        assert(defined[defined.len() - 1] == last);
        if last.full_name() != name {
            if symbol_table(front).contains_key(name) {
                let i = choose|i: int|
                    0 <= i < front.len() && (#[trigger] front[i]).full_name() == name;
                assert(defined[i].full_name() == name);
                let k = choose|k: int|
                    0 <= k < front.len() && front[k] == symbol_table(front)[name];
                assert(defined[k] == symbol_table(front)[name]);
            }
            if exists|i: int| 0 <= i < defined.len() && (#[trigger] defined[i]).full_name() == name {
                let i = choose|i: int|
                    0 <= i < defined.len() && (#[trigger] defined[i]).full_name() == name;
                assert(front[i].full_name() == name);
            }
        }
    }
}

/// The graph of some files knows a symbol exactly where one of them defines it, and what it knows
/// of it is what one of its definitions says.
pub proof fn law_symbols_are_definitions(graph: &CallGraph, files: Seq<FileView>, name: Seq<char>)
    requires
        graph.is_graph_of(files),
    ensures
        graph.table().contains_key(name) <==> exists|f: int, i: int| #[trigger]
            is_defined_at(files, name, f, i),
        graph.table().contains_key(name) ==> exists|f: int, i: int| #[trigger]
            is_defined_at(files, name, f, i) && graph.table()[name] == files[f].defined[i],
{
    lemma_known(files, name);
}

proof fn lemma_known(files: Seq<FileView>, name: Seq<char>)
    ensures
        ({
            let table = symbol_table(all_defined(files));
            &&& table.contains_key(name) <==> exists|f: int, i: int| #[trigger]
                is_defined_at(files, name, f, i)
            &&& table.contains_key(name) ==> exists|f: int, i: int| #[trigger]
                is_defined_at(files, name, f, i) && table[name] == files[f].defined[i]
        }),
{
    let all = all_defined(files);
    let table = symbol_table(all);
    lemma_table(all, name);
    if table.contains_key(name) {
        let (f, i) = lemma_defined_somewhere(files, table[name]);
        assert(is_defined_at(files, name, f, i));
    }
    if exists|f: int, i: int| #[trigger] is_defined_at(files, name, f, i) {
        let (f, i) = choose|f: int, i: int| #[trigger] is_defined_at(files, name, f, i);
        lemma_all_defined(files, f, i);
        let k = choose|k: int| 0 <= k < all.len() && all[k] == files[f].defined[i];
        assert(all[k].full_name() == name);
    }
}

/// One symbol calls another exactly where the other is called by it.
pub proof fn law_callers_mirror_callees(
    graph: &CallGraph,
    files: Seq<FileView>,
    caller: Seq<char>,
    callee: Seq<char>,
)
    requires
        graph.is_graph_of(files),
    ensures
        members(graph.callers@, callee).contains(caller) <==> members(
            graph.callees@,
            caller,
        ).contains(callee),
{
}

proof fn lemma_methods_are_known(
    table: Map<Seq<char>, SymbolView>,
    module: Seq<char>,
    qualname: Seq<char>,
    name: Seq<char>,
)
    ensures
        own_methods(table, module, qualname, name).subset_of(table.dom()),
        namesake_methods(table, module, qualname, name).subset_of(table.dom()),
    decreases qualname.len(),
{
    lemma_last_dot(qualname);
    if let Some(outer) = qualifier(qualname) {
        lemma_methods_are_known(table, module, outer, name);
    }
}

/// Both ends of a call are symbols that the graph knows.
pub proof fn law_calls_join_symbols(
    graph: &CallGraph,
    files: Seq<FileView>,
    caller: Seq<char>,
    callee: Seq<char>,
)
    requires
        graph.is_graph_of(files),
        members(graph.callers@, callee).contains(caller),
    ensures
        graph.table().contains_key(caller),
        graph.table().contains_key(callee),
{
    assert(calls(files, caller, callee));
    let (f, i) = choose|f: int, i: int| call_edge(files, f, i, caller, callee);
    lemma_methods_are_known(
        graph.table(),
        files[f].defined[0].module,
        files[f].calls[i].0,
        short_name(files[f].calls[i].1),
    );
    assert(resolution(
        graph.table(),
        files[f].defined[0].module,
        files[f].calls[i].0,
        files[f].calls[i].1,
    ).contains(callee));
}

/// No two definitions have the same full name.
pub open spec fn names_are_unique(files: Seq<FileView>) -> bool {
    forall|name: Seq<char>, f: int, i: int, g: int, j: int|
        #![trigger is_defined_at(files, name, f, i), is_defined_at(files, name, g, j)]
        is_defined_at(files, name, f, i) && is_defined_at(files, name, g, j) ==> f == g && i == j
}

/// `shuffled` holds the files of `files` in another order: the file at `places[i]` comes at `i`.
pub open spec fn is_shuffle(
    files: Seq<FileView>,
    shuffled: Seq<FileView>,
    places: Seq<int>,
) -> bool {
    &&& shuffled.len() == files.len()
    &&& places.len() == files.len()
    &&& forall|i: int|
        0 <= i < places.len() ==> 0 <= (#[trigger] places[i]) < files.len() && shuffled[i]
            == files[places[i]]
    &&& forall|f: int| 0 <= f < files.len() ==> #[trigger] places.contains(f)
}

proof fn lemma_shuffled_table(
    files: Seq<FileView>,
    shuffled: Seq<FileView>,
    places: Seq<int>,
)
    requires
        is_shuffle(files, shuffled, places),
        names_are_unique(files),
    ensures
        symbol_table(all_defined(files)) == symbol_table(all_defined(shuffled)),
{
    let (table, other) = (symbol_table(all_defined(files)), symbol_table(all_defined(shuffled)));
    assert forall|name: Seq<char>|
        #![trigger table.dom().contains(name)]
        #![trigger other.dom().contains(name)]
        table.dom().contains(name) == other.dom().contains(name) && (table.dom().contains(name)
            ==> table[name] == other[name]) by {
        lemma_known(files, name);
        lemma_known(shuffled, name);
        if other.contains_key(name) {
            let (f, i) = choose|f: int, i: int| #[trigger]
                is_defined_at(shuffled, name, f, i) && other[name] == shuffled[f].defined[i];
            assert(is_defined_at(files, name, places[f], i));
        }
        if table.contains_key(name) {
            let (f, i) = choose|f: int, i: int| #[trigger]
                is_defined_at(files, name, f, i) && table[name] == files[f].defined[i];
            assert(places.contains(f));
            let g = choose|g: int| 0 <= g < places.len() && places[g] == f;
            assert(is_defined_at(shuffled, name, g, i));
        }
    }
    assert(table.dom() =~= other.dom());
    assert(table =~= other);
}

/// Where no two definitions have the same full name, the order of the files makes no difference:
/// the graph knows the same symbols and holds the same calls.
pub proof fn law_file_order_is_irrelevant(
    graph: &CallGraph,
    files: Seq<FileView>,
    other: &CallGraph,
    shuffled: Seq<FileView>,
    places: Seq<int>,
)
    requires
        is_shuffle(files, shuffled, places),
        names_are_unique(files),
        graph.is_graph_of(files),
        other.is_graph_of(shuffled),
    ensures
        graph.table() == other.table(),
        forall|name: Seq<char>| #[trigger]
            members(graph.callers@, name) == members(other.callers@, name),
        forall|name: Seq<char>| #[trigger]
            members(graph.callees@, name) == members(other.callees@, name),
{
    lemma_shuffled_table(files, shuffled, places);
    assert forall|c: Seq<char>, t: Seq<char>| calls(files, c, t) <==> calls(shuffled, c, t) by {
        if calls(files, c, t) {
            let (f, i) = choose|f: int, i: int| call_edge(files, f, i, c, t);
            assert(places.contains(f));
            let g = choose|g: int| 0 <= g < places.len() && places[g] == f;
            assert(call_edge(shuffled, g, i, c, t));
        }
        if calls(shuffled, c, t) {
            let (g, i) = choose|g: int, i: int| call_edge(shuffled, g, i, c, t);
            assert(call_edge(files, places[g], i, c, t));
        }
    }
    assert forall|name: Seq<char>| #[trigger]
        members(graph.callers@, name) == members(other.callers@, name) by {
        assert forall|c: Seq<char>| members(graph.callers@, name).contains(c) <==> members(
            other.callers@,
            name,
        ).contains(c) by {
            assert(calls(files, c, name) <==> calls(shuffled, c, name));
        }
        assert(members(graph.callers@, name) =~= members(other.callers@, name));
    }
    assert forall|name: Seq<char>| #[trigger]
        members(graph.callees@, name) == members(other.callees@, name) by {
        assert forall|t: Seq<char>| members(graph.callees@, name).contains(t) <==> members(
            other.callees@,
            name,
        ).contains(t) by {
            assert(calls(files, name, t) <==> calls(shuffled, name, t));
        }
        assert(members(graph.callees@, name) =~= members(other.callees@, name));
    }
}

/// A call `f()` without a qualifier reaches the functions `f` of the caller's own module, where
/// it has one; where it has none, it reaches every `f`.
pub proof fn law_unqualified_call_prefers_its_module(
    table: Map<Seq<char>, SymbolView>,
    module: Seq<char>,
    caller: Seq<char>,
    callee: Seq<char>,
    target: Seq<char>,
)
    requires
        !callee.contains('.'),
    ensures
        (exists|t: Seq<char>| #[trigger] in_module(table, callee, module).contains(t)) ==> (
        resolution(table, module, caller, callee).contains(target) <==> table.contains_key(target)
            && short_name(target) == callee && table[target].module == module),
        !(exists|t: Seq<char>| #[trigger] in_module(table, callee, module).contains(t)) ==> (
        resolution(table, module, caller, callee).contains(target) <==> table.contains_key(target)
            && short_name(target) == callee),
{
    lemma_last_dot(callee);
    assert(short_name(callee) =~= callee);
    if exists|t: Seq<char>| #[trigger] in_module(table, callee, module).contains(t) {
        let t = choose|t: Seq<char>| #[trigger] in_module(table, callee, module).contains(t);
        assert(!(in_module(table, callee, module) =~= Set::empty()));
    } else {
        assert(in_module(table, callee, module) =~= Set::empty());
    }
}

proof fn lemma_dotted_parts(owner: Seq<char>, name: Seq<char>)
    requires
        !name.contains('.'),
    ensures
        qualifier(dotted(owner, name)) == Some(owner),
        short_name(dotted(owner, name)) == name,
{
    let full = dotted(owner, name);
    let k = owner.len() as int;
    assert forall|i: int| k < i < full.len() implies full[i] != '.' by {
        assert(full[i] == name[i - k - 1]);
    }
    lemma_last_dot_is(full, k);
    assert(full.take(k) =~= owner);
    assert(short_name(full) =~= name);
}

/// Symbol `target` is the method `name` of a class called `class`: its qualified name is
/// `class.name`, behind what is around the class, if anything.
pub open spec fn is_method(
    table: Map<Seq<char>, SymbolView>,
    target: Seq<char>,
    class: Seq<char>,
    name: Seq<char>,
) -> bool {
    &&& table.contains_key(target)
    &&& short_name(target) == name
    &&& ends_in_parts(table[target].qualname, dotted(class, name))
}

/// Symbol `target` is the method `name` of the class whose qualified name is `class`, in `module`.
pub open spec fn is_method_at(
    table: Map<Seq<char>, SymbolView>,
    target: Seq<char>,
    module: Seq<char>,
    class: Seq<char>,
    name: Seq<char>,
) -> bool {
    &&& table.contains_key(target)
    &&& short_name(target) == name
    &&& table[target].module == module
    &&& table[target].qualname == dotted(class, name)
}

proof fn lemma_exactly(
    table: Map<Seq<char>, SymbolView>,
    module: Seq<char>,
    class: Seq<char>,
    name: Seq<char>,
)
    ensures
        forall|t: Seq<char>| #[trigger]
            exactly(table, name, module, dotted(class, name)).contains(t) <==> is_method_at(
                table,
                t,
                module,
                class,
                name,
            ),
        (exists|t: Seq<char>| #[trigger] is_method_at(table, t, module, class, name)) <==> !(
        exactly(table, name, module, dotted(class, name)) =~= Set::empty()),
{
    let here = exactly(table, name, module, dotted(class, name));
    if exists|t: Seq<char>| #[trigger] is_method_at(table, t, module, class, name) {
        let t = choose|t: Seq<char>| #[trigger] is_method_at(table, t, module, class, name);
        assert(here.contains(t));
    } else {
        assert forall|t: Seq<char>| !here.contains(t) by {
            assert(!is_method_at(table, t, module, class, name));
        }
    }
}

proof fn lemma_in_class(table: Map<Seq<char>, SymbolView>, class: Seq<char>, name: Seq<char>)
    ensures
        forall|t: Seq<char>| #[trigger]
            in_class(table, name, class).contains(t) <==> is_method(table, t, class, name),
        (exists|t: Seq<char>| #[trigger] is_method(table, t, class, name)) <==> !(in_class(
            table,
            name,
            class,
        ) =~= Set::empty()),
{
    let here = in_class(table, name, class);
    if exists|t: Seq<char>| #[trigger] is_method(table, t, class, name) {
        let t = choose|t: Seq<char>| #[trigger] is_method(table, t, class, name);
        assert(here.contains(t));
    } else {
        assert forall|t: Seq<char>| !here.contains(t) by {
            assert(!is_method(table, t, class, name));
        }
    }
}

/// A call `self.f()` or `cls.f()` from a method of a class reaches the method `f` of that very
/// class, where it has one, and nothing else.
pub proof fn law_self_call_stays_in_its_class(
    table: Map<Seq<char>, SymbolView>,
    module: Seq<char>,
    class: Seq<char>,
    method: Seq<char>,
    owner: Seq<char>,
    name: Seq<char>,
    target: Seq<char>,
)
    requires
        owner == "self"@ || owner == "cls"@,
        !method.contains('.'),
        !name.contains('.'),
        exists|t: Seq<char>| #[trigger] is_method_at(table, t, module, class, name),
    ensures
        resolution(table, module, dotted(class, method), dotted(owner, name)).contains(target)
            <==> is_method_at(table, target, module, class, name),
{
    lemma_dotted_parts(owner, name);
    lemma_dotted_parts(class, method);
    lemma_exactly(table, module, class, name);
}

/// A call `self.f()` or `cls.f()` from a function inside of a method reaches the method `f` of the
/// class of that method, where it has one, unless a function `f` stands in the method itself.
pub proof fn law_self_call_in_nested_function(
    table: Map<Seq<char>, SymbolView>,
    module: Seq<char>,
    class: Seq<char>,
    method: Seq<char>,
    inner: Seq<char>,
    owner: Seq<char>,
    name: Seq<char>,
    target: Seq<char>,
)
    requires
        owner == "self"@ || owner == "cls"@,
        !method.contains('.'),
        !inner.contains('.'),
        !name.contains('.'),
        is_function(table, module, dotted(class, method)),
        exists|t: Seq<char>| #[trigger] is_method_at(table, t, module, class, name),
        !exists|t: Seq<char>| #[trigger]
            is_method_at(table, t, module, dotted(class, method), name),
    ensures
        resolution(
            table,
            module,
            dotted(dotted(class, method), inner),
            dotted(owner, name),
        ).contains(target) <==> is_method_at(table, target, module, class, name),
{
    let outer = dotted(class, method);
    lemma_dotted_parts(owner, name);
    lemma_dotted_parts(outer, inner);
    lemma_dotted_parts(class, method);
    lemma_exactly(table, module, outer, name);
    lemma_exactly(table, module, class, name);
    assert(own_methods(table, module, outer, name) == exactly(
        table,
        name,
        module,
        dotted(class, name),
    ));
}

/// A call `self.f()` or `cls.f()` for which neither the caller's class nor a function on the way
/// to it has an `f`, as where `f` is inherited, reaches the `f` of the classes that are called like
/// the one it is made from, where they have one; where there is no `f` under the name of what is
/// around the caller, or nothing is around it, the call reaches every `f`.
pub proof fn law_self_call_falls_back(
    table: Map<Seq<char>, SymbolView>,
    module: Seq<char>,
    class: Seq<char>,
    caller: Seq<char>,
    owner: Seq<char>,
    name: Seq<char>,
    target: Seq<char>,
)
    requires
        owner == "self"@ || owner == "cls"@,
        !name.contains('.'),
        own_methods(table, module, caller, name) =~= Set::empty(),
    ensures
        ({
            let reached = resolution(table, module, caller, dotted(owner, name));
            let every = table.contains_key(target) && short_name(target) == name;
            &&& qualifier(caller) == Some(class) && (exists|t: Seq<char>| #[trigger]
                is_method(table, t, short_name(class), name)) ==> (reached.contains(target)
                <==> is_method(table, target, short_name(class), name))
            &&& namesake_methods(table, module, caller, name) =~= Set::empty() ==> (reached.contains(target)
                <==> every)
            &&& qualifier(caller) is None ==> (reached.contains(target) <==> every)
        }),
{
    lemma_dotted_parts(owner, name);
    lemma_in_class(table, short_name(class), name);
}

/// A call `self.f()` or `cls.f()` from a method of a class, where no class of that name has an `f`,
/// reaches every `f`, as it may be inherited from anywhere: also where the class stands in another
/// one that has an `f`.
pub proof fn law_inherited_call_reaches_every_candidate(
    table: Map<Seq<char>, SymbolView>,
    module: Seq<char>,
    class: Seq<char>,
    method: Seq<char>,
    owner: Seq<char>,
    name: Seq<char>,
    target: Seq<char>,
)
    requires
        owner == "self"@ || owner == "cls"@,
        !method.contains('.'),
        !name.contains('.'),
        !is_function(table, module, class),
        !exists|t: Seq<char>| #[trigger] is_method(table, t, short_name(class), name),
    ensures
        resolution(table, module, dotted(class, method), dotted(owner, name)).contains(target)
            <==> table.contains_key(target) && short_name(target) == name,
{
    lemma_dotted_parts(owner, name);
    lemma_dotted_parts(class, method);
    lemma_in_class(table, short_name(class), name);
    lemma_exactly(table, module, class, name);
    let here = exactly(table, name, module, dotted(class, name));
    assert forall|t: Seq<char>| !here.contains(t) by {
        if here.contains(t) {
            lemma_class_ends_in_its_name(class, name);
            assert(is_method(table, t, short_name(class), name));
        }
    }
    assert(here =~= Set::empty());
}

proof fn lemma_class_ends_in_its_name(class: Seq<char>, name: Seq<char>)
    ensures
        ends_in_parts(dotted(class, name), dotted(short_name(class), name)),
{
    let k = last_dot(class);
    lemma_last_dot(class);
    let (full, end) = (dotted(class, name), dotted(short_name(class), name));
    if k < 0 {
        assert(full =~= end);
    } else {
        let tail = seq!['.'].add(end);
        assert(full.subrange(k, full.len() as int) =~= tail);
        assert(tail.is_suffix_of(full));
    }
}

/// A call `C.f()` reaches the method `f` of the class `C`, where it has one, and that of no class
/// of another name; where it has none, it reaches the top-level functions `C` and nothing else.
pub proof fn law_class_call_is_unambiguous(
    table: Map<Seq<char>, SymbolView>,
    module: Seq<char>,
    caller: Seq<char>,
    class: Seq<char>,
    name: Seq<char>,
    target: Seq<char>,
)
    requires
        class != "self"@,
        class != "cls"@,
        !name.contains('.'),
    ensures
        ({
            let reached = resolution(table, module, caller, dotted(class, name));
            &&& (exists|t: Seq<char>| #[trigger] is_method(table, t, class, name)) ==> (
            reached.contains(target) <==> is_method(table, target, class, name))
            &&& !(exists|t: Seq<char>| #[trigger] is_method(table, t, class, name)) ==> (
            reached.contains(target) <==> top_level(table, class).contains(target))
        }),
{
    lemma_dotted_parts(class, name);
    lemma_in_class(table, class, name);
}

/// A direct caller, other than the symbol itself, is one step away, and nothing else is.
pub proof fn law_direct_callers_are_one_step_away(
    graph: &CallGraph,
    sym: Seq<char>,
    name: Seq<char>,
)
    ensures
        graph.distance(sym, name, 1) <==> members(graph.callers@, sym).contains(name) && name
            != sym,
        graph.distance(sym, name, 1) ==> graph.affected(sym).contains(name),
{
    lemma_no_steps(graph, sym, name);
    if members(graph.callers@, sym).contains(name) {
        let path = seq![sym, name];
        assert(is_step(graph.callers@, path, 0));
        assert(is_chain_between(graph.callers@, sym, name, path));
        assert(leads(graph.callers@, sym, name, 1));
        if name != sym {
            assert(graph.distance(sym, name, 1));
        }
    }
    if leads(graph.callers@, sym, name, 1) {
        let path = choose|path: Seq<Seq<char>>|
            path.len() == 2 && #[trigger] is_chain_between(graph.callers@, sym, name, path);
        assert(is_step(graph.callers@, path, 0));
    }
}

proof fn lemma_no_steps(graph: &CallGraph, sym: Seq<char>, name: Seq<char>)
    ensures
        leads(graph.callers@, sym, name, 0) <==> name == sym,
{
    if name == sym {
        let path = seq![sym];
        assert(is_chain_between(graph.callers@, sym, name, path));
    }
    if leads(graph.callers@, sym, name, 0) {
        let path = choose|path: Seq<Seq<char>>|
            path.len() == 1 && #[trigger] is_chain_between(graph.callers@, sym, name, path);
        assert(path[0] == sym && path.last() == name);
    }
}

/// A symbol is not among those that a change of it affects, even where it calls itself.
pub proof fn law_symbol_does_not_affect_itself(graph: &CallGraph, sym: Seq<char>)
    ensures
        !graph.affected(sym).contains(sym),
{
    lemma_no_steps(graph, sym, sym);
}

/// A name has one distance at most.
pub proof fn law_distance_is_unique(
    graph: &CallGraph,
    sym: Seq<char>,
    name: Seq<char>,
    d: nat,
    e: nat,
)
    requires
        graph.distance(sym, name, d),
        graph.distance(sym, name, e),
    ensures
        d == e,
{
    if d < e {
        assert(!leads(graph.callers@, sym, name, d));
    } else if e < d {
        assert(!leads(graph.callers@, sym, name, e));
    }
}

/// Where a symbol is affected, so is each of its callers, at most one step further away, but for
/// the changed symbol itself.
pub proof fn law_callers_of_affected_are_affected(
    graph: &CallGraph,
    sym: Seq<char>,
    name: Seq<char>,
    caller: Seq<char>,
    d: nat,
)
    requires
        graph.distance(sym, name, d),
        members(graph.callers@, name).contains(caller),
        caller != sym,
    ensures
        graph.affected(sym).contains(caller),
        exists|e: nat| 1 <= e <= d + 1 && #[trigger] graph.distance(sym, caller, e),
{
    let path = choose|path: Seq<Seq<char>>|
        path.len() == d + 1 && #[trigger] is_chain_between(graph.callers@, sym, name, path);
    let longer = path.push(caller);
    assert forall|k: int| 0 <= k < longer.len() - 1 implies #[trigger] is_step(
        graph.callers@,
        longer,
        k,
    ) by {
        if k < path.len() - 1 {
            assert(is_step(graph.callers@, path, k));
        }
    }
    assert(is_chain_between(graph.callers@, sym, caller, longer));
    assert(leads(graph.callers@, sym, caller, d + 1));
    let e = lemma_least_steps(graph, sym, caller, d + 1);
    lemma_no_steps(graph, sym, caller);
    assert(graph.distance(sym, caller, e));
}

/// Where some chain leads to a name, a shortest one does.
proof fn lemma_least_steps(graph: &CallGraph, sym: Seq<char>, name: Seq<char>, d: nat) -> (e: nat)
    requires
        leads(graph.callers@, sym, name, d),
    ensures
        e <= d,
        graph.distance(sym, name, e),
    decreases d,
{
    if exists|k: nat| k < d && #[trigger] leads(graph.callers@, sym, name, k) {
        let k = choose|k: nat| k < d && #[trigger] leads(graph.callers@, sym, name, k);
        lemma_least_steps(graph, sym, name, k)
    } else {
        d
    }
}

/// Where the blast radius of a symbol lists a name at some depth, a call chain between the two
/// has that many steps.
pub proof fn law_chain_matches_depth(
    graph: &CallGraph,
    sym: Seq<char>,
    radius: Seq<(Seq<char>, nat)>,
    i: int,
    chain: Seq<Seq<char>>,
)
    requires
        graph.is_radius(sym, radius),
        0 <= i < radius.len(),
        graph.is_shortest_chain(sym, radius[i].0, chain),
    ensures
        chain.len() == radius[i].1 + 1,
        chain[0] == sym,
        chain.last() == radius[i].0,
{
    assert(graph.distance(sym, radius[i].0, radius[i].1));
    assert(leads(graph.callers@, sym, radius[i].0, radius[i].1));
    law_distance_is_unique(graph, sym, radius[i].0, radius[i].1, (chain.len() - 1) as nat);
}

/// Each name of a call chain but the first calls the one before it, and the graph knows both.
pub proof fn law_chain_is_made_of_calls(
    graph: &CallGraph,
    files: Seq<FileView>,
    sym: Seq<char>,
    target: Seq<char>,
    chain: Seq<Seq<char>>,
    k: int,
)
    requires
        graph.is_graph_of(files),
        graph.is_shortest_chain(sym, target, chain),
        0 <= k < chain.len() - 1,
    ensures
        calls(files, chain[k + 1], chain[k]),
        graph.table().contains_key(chain[k]),
        graph.table().contains_key(chain[k + 1]),
{
    assert(is_step(graph.callers@, chain, k));
    law_calls_join_symbols(graph, files, chain[k + 1], chain[k]);
}

/// All names that call some name of `keys`.
spec fn callers_of_any(callers: Map<Seq<char>, NameSet>, keys: Seq<Seq<char>>) -> Set<Seq<char>>
    decreases keys.len(),
{
    if keys.len() == 0 {
        Set::empty()
    } else {
        callers_of_any(callers, keys.drop_last()).union(members(callers, keys.last()))
    }
}

proof fn lemma_callers_of_any(callers: Map<Seq<char>, NameSet>, keys: Seq<Seq<char>>)
    ensures
        callers_of_any(callers, keys).finite(),
        forall|i: int, c: Seq<char>|
            0 <= i < keys.len() && #[trigger] members(callers, keys[i]).contains(c)
                ==> callers_of_any(callers, keys).contains(c),
    decreases keys.len(),
{
    if keys.len() > 0 {
        let front = keys.drop_last();
        lemma_callers_of_any(callers, front);
        if callers.contains_key(keys.last()) {
            vstd::seq_lib::seq_to_set_is_finite(callers[keys.last()].order());
        }
        assert forall|i: int, c: Seq<char>|
            0 <= i < keys.len() && #[trigger] members(callers, keys[i]).contains(
                c,
            ) implies callers_of_any(callers, keys).contains(c) by {
            if i < front.len() {
                assert(members(callers, front[i]).contains(c));
            }
        }
    }
}

/// A change of a symbol affects finitely many others.
pub proof fn law_affected_is_finite(graph: &CallGraph, sym: Seq<char>)
    ensures
        graph.affected(sym).finite(),
{
    let keys = graph.callers.order();
    let all = callers_of_any(graph.callers@, keys);
    lemma_callers_of_any(graph.callers@, keys);
    assert forall|name: Seq<char>| graph.affected(sym).contains(name) implies all.contains(name) by {
        let d = choose|d: nat| d >= 1 && #[trigger] graph.distance(sym, name, d);
        let path = choose|path: Seq<Seq<char>>|
            path.len() == d + 1 && #[trigger] is_chain_between(graph.callers@, sym, name, path);
        assert(is_step(graph.callers@, path, d - 1));
        let callee = path[d - 1];
        assert(graph.callers@.contains_key(callee));
        let i = choose|i: int| 0 <= i < keys.len() && keys[i] == callee;
        assert(members(graph.callers@, keys[i]).contains(name));
    }
    assert(graph.affected(sym).subset_of(all));
    vstd::set_lib::lemma_len_subset(graph.affected(sym), all);
}

proof fn lemma_modules_of(graph: &CallGraph, names: Set<Seq<char>>)
    requires
        names.finite(),
    ensures
        graph.modules_of(names).finite(),
        graph.modules_of(names).len() <= names.len(),
    decreases names.len(),
{
    let modules = graph.modules_of(names);
    if names.len() == 0 {
        assert(modules =~= Set::empty());
    } else {
        let a = names.choose();
        let fewer = names.remove(a);
        lemma_modules_of(graph, fewer);
        let bound = graph.modules_of(fewer).insert(graph.table()[a].module);
        assert forall|m: Seq<char>| modules.contains(m) implies bound.contains(m) by {
            let n = choose|n: Seq<char>|
                names.contains(n) && graph.table().contains_key(n) && #[trigger] graph.table()[n].module
                    == m;
            if n != a {
                assert(fewer.contains(n));
                assert(graph.table()[n].module == m);
            }
        }
        assert(modules.subset_of(bound));
        vstd::set_lib::lemma_len_subset(modules, bound);
    }
}

/// Of the callers that count, no more are uncovered than there are; they stand in at least one
/// module, that of the symbol itself, and in no more than one each besides. Without callers
/// nothing is uncovered, and no other module is affected.
pub proof fn law_counts_are_consistent(
    sym: SymbolView,
    graph: &CallGraph,
    tests: Set<Seq<char>>,
    exclude: Seq<Seq<char>>,
    baseline: &RepoBaseline,
)
    ensures
        ({
            let s = assessment(sym, graph, tests, exclude, baseline);
            &&& s.uncovered_callers <= s.transitive_callers
            &&& 1 <= s.modules_affected <= s.transitive_callers + 1
        }),
{
    let full = sym.full_name();
    let reached = graph.reached(full, exclude);
    let untested = |c: Seq<char>| graph.is_uncovered(c, tests);
    law_affected_is_finite(graph, full);
    graph.affected(full).lemma_len_filter(|c: Seq<char>| !graph.excludes(c, exclude));
    reached.lemma_len_filter(untested);
    lemma_modules_of(graph, reached);
}

/// Each direct caller is a transitive one, but for the symbol itself where it calls itself: there
/// is at most one direct caller more than there are transitive ones.
pub proof fn law_direct_callers_are_transitive(
    sym: SymbolView,
    graph: &CallGraph,
    tests: Set<Seq<char>>,
    exclude: Seq<Seq<char>>,
    baseline: &RepoBaseline,
)
    ensures
        ({
            let s = assessment(sym, graph, tests, exclude, baseline);
            let full = sym.full_name();
            let recursive = graph.counted_callers(full, exclude).contains(full);
            &&& graph.counted_callers(full, exclude).remove(full).subset_of(
                graph.reached(full, exclude),
            )
            &&& s.direct_callers <= s.transitive_callers + if recursive {
                1nat
            } else {
                0
            }
        }),
{
    let full = sym.full_name();
    let direct = graph.counted_callers(full, exclude);
    let others = direct.remove(full);
    let reached = graph.reached(full, exclude);
    assert forall|c: Seq<char>| others.contains(c) implies reached.contains(c) by {
        law_direct_callers_are_one_step_away(graph, full, c);
    }
    if graph.callers@.contains_key(full) {
        vstd::seq_lib::seq_to_set_is_finite(graph.callers@[full].order());
    }
    members(graph.callers@, full).lemma_len_filter(
        |c: Seq<char>| !graph.excludes(c, exclude),
    );
    law_affected_is_finite(graph, full);
    graph.affected(full).lemma_len_filter(|c: Seq<char>| !graph.excludes(c, exclude));
    vstd::set_lib::lemma_len_subset(others, reached);
}

/// Nothing is uncovered exactly where each caller that counts, and that the graph knows, stands
/// in a module with tests.
pub proof fn law_tests_cover(
    sym: SymbolView,
    graph: &CallGraph,
    tests: Set<Seq<char>>,
    exclude: Seq<Seq<char>>,
    baseline: &RepoBaseline,
)
    ensures
        assessment(sym, graph, tests, exclude, baseline).uncovered_callers == 0
            <==> graph.modules_of(graph.reached(sym.full_name(), exclude)).subset_of(tests),
{
    let full = sym.full_name();
    let reached = graph.reached(full, exclude);
    let untested = |c: Seq<char>| graph.is_uncovered(c, tests);
    let uncovered = reached.filter(untested);
    law_affected_is_finite(graph, full);
    graph.affected(full).lemma_len_filter(|c: Seq<char>| !graph.excludes(c, exclude));
    reached.lemma_len_filter(untested);
    if graph.modules_of(reached).subset_of(tests) {
        assert forall|c: Seq<char>| !uncovered.contains(c) by {
            if uncovered.contains(c) {
                assert(graph.modules_of(reached).contains(graph.table()[c].module));
            }
        }
        assert(uncovered =~= Set::empty());
    }
    if uncovered.len() == 0 {
        assert(uncovered =~= Set::empty());
        assert forall|m: Seq<char>| graph.modules_of(reached).contains(m) implies tests.contains(
            m,
        ) by {
            let n = choose|n: Seq<char>|
                reached.contains(n) && graph.table().contains_key(n) && #[trigger] graph.table()[n].module
                    == m;
            assert(!uncovered.contains(n));
        }
    }
}

/// More tests never leave more callers uncovered, and change nothing else of what is counted.
pub proof fn law_more_tests_cover_more(
    sym: SymbolView,
    graph: &CallGraph,
    tests: Set<Seq<char>>,
    more_tests: Set<Seq<char>>,
    exclude: Seq<Seq<char>>,
    baseline: &RepoBaseline,
)
    requires
        tests.subset_of(more_tests),
    ensures
        ({
            let s = assessment(sym, graph, tests, exclude, baseline);
            let t = assessment(sym, graph, more_tests, exclude, baseline);
            &&& t.uncovered_callers <= s.uncovered_callers
            &&& t.direct_callers == s.direct_callers
            &&& t.transitive_callers == s.transitive_callers
            &&& t.modules_affected == s.modules_affected
            &&& t.percentile == s.percentile
        }),
{
    let full = sym.full_name();
    let reached = graph.reached(full, exclude);
    let before = reached.filter(|c: Seq<char>| graph.is_uncovered(c, tests));
    let after = reached.filter(|c: Seq<char>| graph.is_uncovered(c, more_tests));
    law_affected_is_finite(graph, full);
    graph.affected(full).lemma_len_filter(|c: Seq<char>| !graph.excludes(c, exclude));
    reached.lemma_len_filter(|c: Seq<char>| graph.is_uncovered(c, tests));
    assert(after.subset_of(before));
    vstd::set_lib::lemma_len_subset(after, before);
}

/// Excluding more never adds to what is counted.
pub proof fn law_excluding_more_counts_less(
    sym: SymbolView,
    graph: &CallGraph,
    tests: Set<Seq<char>>,
    exclude: Seq<Seq<char>>,
    more: Seq<Seq<char>>,
    baseline: &RepoBaseline,
    other: &RepoBaseline,
)
    requires
        exclude.to_set().subset_of(more.to_set()),
    ensures
        ({
            let s = assessment(sym, graph, tests, exclude, baseline);
            let t = assessment(sym, graph, tests, more, other);
            &&& t.direct_callers <= s.direct_callers
            &&& t.transitive_callers <= s.transitive_callers
            &&& t.modules_affected <= s.modules_affected
            &&& t.uncovered_callers <= s.uncovered_callers
        }),
{
    let full = sym.full_name();
    assert forall|c: Seq<char>| graph.excludes(c, exclude) implies graph.excludes(c, more) by {
        let i = choose|i: int|
            0 <= i < exclude.len() && has_infix(graph.table()[c].file, #[trigger] exclude[i]);
        assert(exclude.to_set().contains(exclude[i]));
        assert(more.to_set().contains(exclude[i]));
        let k = choose|k: int| 0 <= k < more.len() && more[k] == exclude[i];
        assert(has_infix(graph.table()[c].file, more[k]));
    }
    let untested = |c: Seq<char>| graph.is_uncovered(c, tests);
    let (before, after) = (graph.reached(full, exclude), graph.reached(full, more));
    law_affected_is_finite(graph, full);
    graph.affected(full).lemma_len_filter(|c: Seq<char>| !graph.excludes(c, exclude));
    assert(after.subset_of(before));
    vstd::set_lib::lemma_len_subset(after, before);
    before.lemma_len_filter(untested);
    assert(after.filter(untested).subset_of(before.filter(untested)));
    vstd::set_lib::lemma_len_subset(after.filter(untested), before.filter(untested));
    lemma_modules_of(graph, before);
    let modules = graph.modules_of(before).insert(sym.module);
    let fewer = graph.modules_of(after).insert(sym.module);
    assert forall|m: Seq<char>| fewer.contains(m) implies modules.contains(m) by {
        if m != sym.module {
            let n = choose|n: Seq<char>|
                after.contains(n) && graph.table().contains_key(n) && #[trigger] graph.table()[n].module
                    == m;
            assert(before.contains(n));
            assert(graph.table()[n].module == m);
        }
    }
    assert(fewer.subset_of(modules));
    vstd::set_lib::lemma_len_subset(fewer, modules);
    let (direct, fewer_direct) = (
        graph.counted_callers(full, exclude),
        graph.counted_callers(full, more),
    );
    if graph.callers@.contains_key(full) {
        vstd::seq_lib::seq_to_set_is_finite(graph.callers@[full].order());
    }
    members(graph.callers@, full).lemma_len_filter(
        |c: Seq<char>| !graph.excludes(c, exclude),
    );
    assert(fewer_direct.subset_of(direct));
    vstd::set_lib::lemma_len_subset(fewer_direct, direct);
}

/// The labels in whole numbers. Out of all symbols of the repository, `reached` have no more
/// direct callers than this one. The label is `HIGH` where they are at least nine tenths of all
/// and more than half of the symbol's callers are uncovered; it is `MED` where not both hold but
/// they are at least three quarters, or more than half of the callers are uncovered; and it is
/// `LOW` otherwise.
pub proof fn law_labels(
    sym: SymbolView,
    graph: &CallGraph,
    tests: Set<Seq<char>>,
    exclude: Seq<Seq<char>>,
    baseline: &RepoBaseline,
)
    requires
        0 < 4 * baseline.sorted_counts@.len() <= LEAST_MANTISSA,
        assessment(sym, graph, tests, exclude, baseline).transitive_callers <= LEAST_MANTISSA,
    ensures
        ({
            let s = assessment(sym, graph, tests, exclude, baseline);
            let all = baseline.sorted_counts@.len();
            let reached = count_up_to(baseline.sorted_counts@, s.direct_callers as usize);
            let mostly_uncovered = 2 * s.uncovered_callers > s.transitive_callers;
            &&& s.label() == "HIGH"@ <==> 10 * reached >= 9 * all && mostly_uncovered
            &&& s.label() == "MED"@ <==> !(10 * reached >= 9 * all && mostly_uncovered) && (4
                * reached >= 3 * all || mostly_uncovered)
            &&& s.label() == "LOW"@ <==> !(4 * reached >= 3 * all) && !mostly_uncovered
        }),
{
    let s = assessment(sym, graph, tests, exclude, baseline);
    let all = baseline.sorted_counts@.len();
    let reached = count_up_to(baseline.sorted_counts@, s.direct_callers as usize);
    law_counts_are_consistent(sym, graph, tests, exclude, baseline);
    lemma_count_up_to(baseline.sorted_counts@, s.direct_callers as usize);
    lemma_reaches_nine_tenths(reached, all);
    lemma_reaches_three_quarters(reached, all);
    lemma_exceeds_half(s.uncovered_callers, at_least_one(s.transitive_callers));
    reveal_strlit("HIGH");
    reveal_strlit("MED");
    reveal_strlit("LOW");
    assert("HIGH"@.len() == 4 && "MED"@.len() == 3 && "LOW"@.len() == 3);
    assert("MED"@[0] == 'M' && "LOW"@[0] == 'L');
}

/// The score of a symbol lies between 0 and 100.
pub proof fn law_score_is_bounded(
    sym: SymbolView,
    graph: &CallGraph,
    tests: Set<Seq<char>>,
    exclude: Seq<Seq<char>>,
    baseline: &RepoBaseline,
)
    requires
        baseline.sorted_counts@.len() <= u64::MAX,
        assessment(sym, graph, tests, exclude, baseline).transitive_callers <= u64::MAX,
    ensures
        ({
            let s = assessment(sym, graph, tests, exclude, baseline);
            &&& s.percentile.units() <= one()
            &&& s.uncovered_ratio.units() <= one()
            &&& s.score.units() <= 100 * one()
        }),
{
    let s = assessment(sym, graph, tests, exclude, baseline);
    law_counts_are_consistent(sym, graph, tests, exclude, baseline);
    baseline.lemma_percentile_is_fraction(s.direct_callers as usize);
    lemma_quotient(
        s.uncovered_callers,
        s.uncovered_callers,
        at_least_one(s.transitive_callers),
    );
    lemma_weighted(s.percentile, s.uncovered_ratio, s.percentile, s.uncovered_ratio);
}

proof fn lemma_count_in_multiset(s: Seq<usize>, limit: usize)
    ensures
        count_up_to(s, limit) == s.to_multiset().filter(|x: usize| x <= limit).len(),
    decreases s.len(),
{
    broadcast use vstd::multiset::group_multiset_axioms;

    let low = |x: usize| x <= limit;
    if s.len() == 0 {
        s.to_multiset_ensures();
        assert(s.to_multiset().filter(low) =~= vstd::multiset::Multiset::empty());
    } else {
        let front = s.drop_last();
        lemma_count_in_multiset(front, limit);
        assert(s =~= front.push(s.last()));
        vstd::seq_lib::to_multiset_build(front, s.last());
        let (before, all) = (front.to_multiset(), s.to_multiset());
        if low(s.last()) {
            assert(all.filter(low) =~= before.filter(low).insert(s.last()));
        } else {
            assert(all.filter(low) =~= before.filter(low));
        }
    }
}

/// The percentile of a number of direct callers, in the baseline of a graph, is the fraction of
/// the symbols of the graph that have at most that many.
pub proof fn law_percentile_counts_symbols(
    graph: &CallGraph,
    exclude: Seq<Seq<char>>,
    baseline: &RepoBaseline,
    count: usize,
)
    requires
        baseline.sorted_counts@.to_multiset() == graph.counts(exclude).to_multiset(),
        graph.symbols.order().len() > 0,
    ensures
        baseline.percentile(count) == quotient(
            count_up_to(graph.counts(exclude), count),
            graph.symbols.order().len(),
        ),
{
    let (sorted, counts) = (baseline.sorted_counts@, graph.counts(exclude));
    lemma_count_in_multiset(sorted, count);
    lemma_count_in_multiset(counts, count);
    sorted.to_multiset_ensures();
    counts.to_multiset_ensures();
}

/// The value at a higher percentage is not lower, and is always one of the values. The one at 0
/// percent is the lowest, and the one at 100 percent or more the highest of all. At exactly 100
/// percent that takes a number of values that is not rounded down by more than one when it is
/// made a value of the format, as none below 2^53 is.
pub proof fn law_values_ascend(baseline: &RepoBaseline, pct: usize, higher: usize)
    requires
        baseline.is_ordered(),
        0 < baseline.sorted_counts@.len() <= u64::MAX,
        pct <= higher,
    ensures
        baseline.place_of(pct) < baseline.sorted_counts@.len(),
        baseline.sorted_counts@[baseline.place_of(pct) as int]
            <= baseline.sorted_counts@[baseline.place_of(higher) as int],
        baseline.place_of(0) == 0,
        higher > 100 ==> baseline.place_of(higher) == baseline.sorted_counts@.len() - 1,
        baseline.place_of(100) == baseline.sorted_counts@.len() - 1 <==> of_int(
            baseline.sorted_counts@.len(),
        ).whole() >= baseline.sorted_counts@.len() - 1,
        baseline.sorted_counts@.len() < 2 * LEAST_MANTISSA ==> baseline.place_of(100)
            == baseline.sorted_counts@.len() - 1,
{
    let n = baseline.sorted_counts@.len();
    let w = one();
    vstd::arithmetic::power2::lemma_pow2_pos(1074);
    lemma_quotient(pct as nat, higher as nat, 100);
    lemma_quotient(higher as nat, higher as nat, 100);
    lemma_quotient(0, 100, 100);
    lemma_quotient(100, 100, 100);
    let (x, y) = (quotient(pct as nat, 100), quotient(higher as nat, 100));
    lemma_times_keeps_order(x, y, n);
    lemma_times_keeps_order(quotient(0, 100), quotient(100, 100), n);
    lemma_of_int(n);
    lemma_times_one(quotient(100, 100), n);
    let (a, b) = (x.times(of_int(n)).units(), y.times(of_int(n)).units());
    vstd::arithmetic::div_mod::lemma_div_is_ordered(a as int, b as int, w as int);
    vstd::arithmetic::div_mod::lemma_div_multiples_vanish(n as int, w as int);
    assert(w * n == n * w) by (nonlinear_arith);
    assert(0nat / w == 0) by {
        vstd::arithmetic::div_mod::lemma_div_basics(w as int);
    }
    if higher > 100 {
        lemma_hundredth_more(n);
        lemma_quotient(101, higher as nat, 100);
        let z = quotient(101, 100);
        lemma_times_keeps_order(z, y, n);
        vstd::arithmetic::div_mod::lemma_div_is_ordered((n * w) as int, b as int, w as int);
    }
}

/// A file of tests tests the module of the file beside it that it is named after: both
/// `test_foo.py` and `foo_test.py` test `foo`. Its name is that of the directory, with dots, and a
/// dot and that of the file; at the root, that of the file alone; and that of the directory alone
/// for the file that stands for the whole directory.
pub proof fn law_tests_belong_to_the_file_beside_them(dir: Seq<char>, stem: Seq<char>)
    requires
        stem.len() > 0,
    ensures
        tested_module("test_"@ + stem + ".py"@, Some(dir)) == Some(
            module_name(path_in(dir, stem)),
        ),
        !"test_"@.is_prefix_of(stem + "_test"@) ==> tested_module(
            stem + "_test"@ + ".py"@,
            Some(dir),
        ) == Some(module_name(path_in(dir, stem))),
        module_name(path_in(dir, stem)) == without_suffix(
            if dir.len() == 0 {
                separators_to_dots(stem)
            } else {
                dotted(separators_to_dots(dir), separators_to_dots(stem))
            },
            ".__init__"@,
        ),
{
    reveal_strlit("test_");
    reveal_strlit("_test");
    reveal_strlit("_test.py");
    reveal_strlit(".py");
    reveal_strlit("/");
    let first = "test_"@ + stem;
    lemma_suffix(first, ".py"@);
    assert("test_"@.is_prefix_of(first)) by {
        assert(first.subrange(0, 5) =~= "test_"@);
    }
    assert("test_"@.is_prefix_of(first + ".py"@)) by {
        assert((first + ".py"@).subrange(0, 5) =~= "test_"@);
    }
    assert(first.skip(5) =~= stem);
    let second = stem + "_test"@;
    lemma_suffix(second, ".py"@);
    lemma_suffix(stem, "_test"@);
    assert(second + ".py"@ =~= stem + "_test.py"@);
    lemma_suffix(stem, "_test.py"@);
    if dir.len() == 0 {
        lemma_suffix(stem, ".py"@);
    } else {
        let front = dir + "/"@ + stem;
        lemma_suffix(front, ".py"@);
        assert(separators_to_dots(front) =~= dotted(
            separators_to_dots(dir),
            separators_to_dots(stem),
        ));
    }
}

proof fn lemma_suffix(s: Seq<char>, suffix: Seq<char>)
    ensures
        suffix.is_suffix_of(s + suffix),
        without_suffix(s + suffix, suffix) == s,
{
    let all = s + suffix;
    assert(all.subrange(all.len() - suffix.len(), all.len() as int) =~= suffix);
    assert(all.take(all.len() - suffix.len()) =~= s);
}

/// As many callers are shown as uncovered as the score counts.
pub proof fn law_shown_callers_match_score(
    sym: SymbolView,
    graph: &CallGraph,
    tests: Set<Seq<char>>,
    exclude: Seq<Seq<char>>,
    baseline: &RepoBaseline,
    radius: Seq<(Seq<char>, nat)>,
)
    requires
        graph.is_radius(sym.full_name(), radius),
    ensures
        graph.shown(radius, tests, exclude).len() == assessment(
            sym,
            graph,
            tests,
            exclude,
            baseline,
        ).uncovered_callers,
{
    let full = sym.full_name();
    let names = radius.map_values(|e: (Seq<char>, nat)| e.0);
    let shows = |c: Seq<char>| graph.shows(c, tests, exclude);
    let untested = |c: Seq<char>| graph.is_uncovered(c, tests);
    graph.lemma_radius_lists_affected(full, radius, names);
    lemma_shown(graph, radius, names, tests, exclude);
    assert(names.to_set().filter(shows) =~= graph.reached(full, exclude).filter(untested));
}

proof fn lemma_shown(
    graph: &CallGraph,
    radius: Seq<(Seq<char>, nat)>,
    names: Seq<Seq<char>>,
    tests: Set<Seq<char>>,
    exclude: Seq<Seq<char>>,
)
    requires
        names == radius.map_values(|e: (Seq<char>, nat)| e.0),
        names.no_duplicates(),
    ensures
        names.to_set().filter(|c: Seq<char>| graph.shows(c, tests, exclude)).finite(),
        graph.shown(radius, tests, exclude).len() == names.to_set().filter(
            |c: Seq<char>| graph.shows(c, tests, exclude),
        ).len(),
    decreases radius.len(),
{
    let shows = |c: Seq<char>| graph.shows(c, tests, exclude);
    if radius.len() == 0 {
        assert(names.to_set().filter(shows) =~= Set::empty());
    } else {
        let k = radius.len() - 1;
        let front = radius.drop_last();
        let names_before = names.take(k);
        assert(names_before =~= front.map_values(|e: (Seq<char>, nat)| e.0));
        lemma_shown(graph, front, names_before, tests, exclude);
        lemma_next_kept(names, k, shows);
        assert(names.take(k + 1) =~= names);
    }
}

/// There is only one ranking of given scores.
pub proof fn law_ranking_is_unique(
    before: Seq<ScoreView>,
    after: Seq<ScoreView>,
    places: Seq<int>,
    other: Seq<ScoreView>,
    other_places: Seq<int>,
)
    requires
        is_ranking(before, after, places),
        is_ranking(before, other, other_places),
    ensures
        after == other,
{
    assert forall|i: int| 0 <= i < places.len() implies places[i] == other_places[i] by {
        lemma_same_place(before, after, places, other, other_places, i);
    }
    assert(after =~= other);
}

proof fn lemma_same_place(
    before: Seq<ScoreView>,
    after: Seq<ScoreView>,
    places: Seq<int>,
    other: Seq<ScoreView>,
    other_places: Seq<int>,
    i: int,
)
    requires
        is_ranking(before, after, places),
        is_ranking(before, other, other_places),
        0 <= i < places.len(),
    ensures
        places[i] == other_places[i],
    decreases i,
{
    if places[i] != other_places[i] {
        assert forall|j: int| 0 <= j < i implies places[j] == other_places[j] by {
            lemma_same_place(before, after, places, other, other_places, j);
        }
        let j = lemma_all_places(before, after, places, other_places[i]);
        let k = lemma_all_places(before, other, other_places, places[i]);
        // Each of the two would have to come before the other.
        assert(i < j) by {
            if j < i {
                assert(other_places[j] == other_places[i]);
            }
        }
        assert(i < k) by {
            if k < i {
                assert(places[k] == places[i]);
            }
        }
        assert(after[i] == before[places[i]] && after[j] == before[places[j]]);
        assert(other[i] == before[other_places[i]] && other[k] == before[other_places[k]]);
    }
}

pub proof fn lemma_all_places(
    before: Seq<ScoreView>,
    after: Seq<ScoreView>,
    places: Seq<int>,
    x: int,
) -> (j: int)
    requires
        is_ranking(before, after, places),
        0 <= x < before.len(),
    ensures
        0 <= j < places.len(),
        places[j] == x,
{
    let n = places.len() as int;
    let all = vstd::set_lib::set_int_range(0, n);
    vstd::set_lib::lemma_int_range(0, n);
    places.unique_seq_to_set();
    assert(places.to_set().subset_of(all)) by {
        assert forall|y: int| places.to_set().contains(y) implies all.contains(y) by {
            let i = choose|i: int| 0 <= i < places.len() && places[i] == y;
            assert(0 <= places[i] < n);
        }
    }
    vstd::set_lib::lemma_subset_equality(places.to_set(), all);
    assert(places.to_set().contains(x));
    choose|j: int| 0 <= j < places.len() && places[j] == x
}

/// Each call that a file lists is made by a function that it defines.
pub proof fn law_callers_are_defined(
    nodes: Seq<NodeView>,
    source: Seq<char>,
    module: Seq<char>,
    file: Seq<char>,
    i: int,
)
    requires
        0 <= i < file_symbols(nodes, source, module, file).calls.len(),
    ensures
        ({
            let symbols = file_symbols(nodes, source, module, file);
            exists|k: int|
                0 <= k < symbols.defined.len() && (#[trigger] symbols.defined[k]).qualname
                    == symbols.calls[i].0
        }),
{
    let defined = file_symbols(nodes, source, module, file).defined;
    lemma_callers_are_defined(nodes, source, defined, nodes.len() as int, i);
}

proof fn lemma_callers_are_defined(
    nodes: Seq<NodeView>,
    source: Seq<char>,
    defined: Seq<SymbolView>,
    n: int,
    i: int,
)
    requires
        0 <= i < calls_of(nodes, source, defined, n).len(),
    ensures
        exists|k: int|
            0 <= k < defined.len() && (#[trigger] defined[k]).qualname == calls_of(
                nodes,
                source,
                defined,
                n,
            )[i].0,
    decreases n,
{
    let before = calls_of(nodes, source, defined, n - 1);
    if i < before.len() {
        lemma_callers_are_defined(nodes, source, defined, n - 1, i);
    } else {
        let line = nodes[n - 1].start_row + 1;
        let k = choose|k: int| is_innermost(defined, line, k);
        assert(is_innermost(defined, line, k));
        assert(defined[k].qualname == calls_of(nodes, source, defined, n)[i].0);
    }
}

/// Each function that a file defines carries the module and the path of that file.
pub proof fn law_definitions_carry_their_file(
    nodes: Seq<NodeView>,
    source: Seq<char>,
    module: Seq<char>,
    file: Seq<char>,
    n: int,
    i: int,
)
    requires
        0 <= i < definitions(nodes, source, module, file, n).len(),
    ensures
        definitions(nodes, source, module, file, n)[i].module == module,
        definitions(nodes, source, module, file, n)[i].file == file,
    decreases n,
{
    if i < definitions(nodes, source, module, file, n - 1).len() {
        law_definitions_carry_their_file(nodes, source, module, file, n - 1, i);
    }
}

/// A symbol counts as changed exactly where the file defines it and its lines meet a changed range.
pub proof fn law_touched_are_changed_definitions(
    defined: Seq<SymbolView>,
    changed: Seq<(u64, u64)>,
    s: SymbolView,
)
    ensures
        touched(defined, changed).contains(s) <==> defined.contains(s) && overlaps(
            changed,
            s.line,
            s.end_line,
        ),
{
    let keep = |t: SymbolView| overlaps(changed, t.line, t.end_line);
    if touched(defined, changed).contains(s) {
        let k = choose|k: int|
            0 <= k < touched(defined, changed).len() && touched(defined, changed)[k] == s;
        defined.lemma_filter_pred(keep, k);
        defined.lemma_filter_contains_rev(keep, s);
    }
    if defined.contains(s) && keep(s) {
        let k = choose|k: int| 0 <= k < defined.len() && defined[k] == s;
        defined.lemma_filter_contains(keep, k);
    }
}

/// Parsing gave the symbol `s` for file number `f`, and its lines meet a changed range of it.
pub open spec fn changed_in(
    outcomes: Seq<Result<FileView, ParseError>>,
    files: Seq<SourceFile>,
    changed: Map<Seq<char>, Vec<(u64, u64)>>,
    s: SymbolView,
    f: int,
) -> bool {
    &&& 0 <= f < outcomes.len()
    &&& outcomes[f] matches Ok(symbols) && symbols.defined.contains(s) && overlaps(
        listed(changed, files[f].path@),
        s.line,
        s.end_line,
    )
}

/// A symbol is among those that changed exactly where one of the files that could be parsed
/// defines it and its lines meet a changed range of that file.
pub proof fn law_every_changed_symbol_is_found(
    outcomes: Seq<Result<FileView, ParseError>>,
    files: Seq<SourceFile>,
    changed: Map<Seq<char>, Vec<(u64, u64)>>,
    s: SymbolView,
)
    ensures
        all_touched(outcomes, files, changed).contains(s) <==> exists|f: int| #[trigger]
            changed_in(outcomes, files, changed, s, f),
    decreases outcomes.len(),
{
    if outcomes.len() > 0 {
        let k = outcomes.len() - 1;
        let front = outcomes.drop_last();
        let before = all_touched(front, files, changed);
        law_every_changed_symbol_is_found(front, files, changed, s);
        assert forall|f: int| 0 <= f < k implies #[trigger] changed_in(
            outcomes,
            files,
            changed,
            s,
            f,
        ) == changed_in(front, files, changed, s, f) by {
            assert(front[f] == outcomes[f]);
        }
        if before.contains(s) {
            let f = choose|f: int| #[trigger] changed_in(front, files, changed, s, f);
            assert(changed_in(outcomes, files, changed, s, f));
        }
        match outcomes[k] {
            Ok(symbols) => {
                let ranges = listed(changed, files[k].path@);
                let here = touched(symbols.defined, ranges);
                law_touched_are_changed_definitions(symbols.defined, ranges, s);
                lemma_in_either(before, here, s);
                assert(changed_in(outcomes, files, changed, s, k) <==> here.contains(s));
            },
            Err(_) => {},
        }
        if exists|f: int| #[trigger] changed_in(outcomes, files, changed, s, f) {
            let f = choose|f: int| #[trigger] changed_in(outcomes, files, changed, s, f);
            assert(f < k ==> changed_in(front, files, changed, s, f));
        }
    }
}

proof fn lemma_in_either(a: Seq<SymbolView>, b: Seq<SymbolView>, s: SymbolView)
    ensures
        (a + b).contains(s) <==> a.contains(s) || b.contains(s),
{
    let all = a + b;
    if a.contains(s) {
        let k = choose|k: int| 0 <= k < a.len() && a[k] == s;
        assert(all[k] == s);
    }
    if b.contains(s) {
        let k = choose|k: int| 0 <= k < b.len() && b[k] == s;
        assert(all[a.len() + k] == s);
    }
    if all.contains(s) {
        let k = choose|k: int| 0 <= k < all.len() && all[k] == s;
        if k < a.len() {
            assert(a[k] == s);
        } else {
            assert(b[k - a.len()] == s);
        }
    }
}

/// Each symbol of a new file counts as changed, up to the line that stands for its end.
pub proof fn law_new_file_is_all_changed(
    hunks: Seq<HunkView>,
    added: Seq<Seq<char>>,
    path: Seq<char>,
    start: nat,
    end: nat,
)
    requires
        is_python(path),
        added.contains(path),
        forall|i: int| 0 <= i < hunks.len() ==> (#[trigger] hunks[i]).path != path,
        start <= WHOLE_FILE,
        end >= 1,
    ensures
        overlaps(changed_lines(hunks, added, path), start, end),
{
    lemma_no_hunks(hunks, path);
    let changed = changed_lines(hunks, added, path);
    assert(changed[0] == (1u64, WHOLE_FILE));
}

proof fn lemma_no_hunks(hunks: Seq<HunkView>, path: Seq<char>)
    requires
        forall|i: int| 0 <= i < hunks.len() ==> (#[trigger] hunks[i]).path != path,
    ensures
        hunk_ranges(hunks, path).len() == 0,
    decreases hunks.len(),
{
    if hunks.len() > 0 {
        assert(hunks.last() == hunks[hunks.len() - 1]);
        assert forall|i: int| 0 <= i < hunks.drop_last().len() implies (
        #[trigger] hunks.drop_last()[i]).path != path by {
            assert(hunks.drop_last()[i] == hunks[i]);
        }
        lemma_no_hunks(hunks.drop_last(), path);
    }
}

/// What is no Python file never counts as changed.
pub proof fn law_only_python_changes(
    hunks: Seq<HunkView>,
    added: Seq<Seq<char>>,
    path: Seq<char>,
)
    requires
        !is_python(path),
    ensures
        changed_lines(hunks, added, path).len() == 0,
    decreases hunks.len(),
{
    if hunks.len() > 0 {
        law_only_python_changes(hunks.drop_last(), added, path);
    }
}

/// A percentage of a fraction is one from 0 to 100.
pub proof fn law_percent_is_bounded(x: Binary64)
    requires
        x.is_canonical(),
        x.units() <= one(),
    ensures
        percent(x) <= 100,
{
    lemma_size(x);
    lemma_times(x, x, 100);
    vstd::arithmetic::power2::lemma_pow2_pos(1074);
    lemma_nearest_bound(x.times(of_int(100)).units(), one(), 100);
}

} // verus!
