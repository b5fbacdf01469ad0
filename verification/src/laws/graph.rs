//! Whom a call reaches, and whom a change affects.
use crate::binary64::{of_int, quotient, zero};
use crate::callgraph::{
    all_defined, call_edge, calls, ends_in_parts, exactly, in_class, in_module, is_function,
    namesake_methods, own_methods, radius_view, resolution, symbol_table, top_level, CallGraph,
    RepoBaseline,
};
use crate::laws::diff::law_exclusion_is_by_substring;
use crate::laws::words::{law_ends_in_parts, law_name_is_cut_at_its_last_dot};
use crate::names::{members, NameSet};
use crate::order::{count_up_to, is_ascending};
use crate::parser::{FileView, SymbolView};
use crate::reach::{distance_is, is_chain, is_chain_between, is_step, leads};
use crate::text::{dotted, joined, qualifier, short_name};
use vstd::prelude::*;

verus! {

/// All definitions of all files count, one file after the other, and of two with the same full
/// name the later one.
pub proof fn law_later_definitions_count(
    files: Seq<FileView>,
    file: FileView,
    defined: Seq<SymbolView>,
    s: SymbolView,
    name: Seq<char>,
)
    ensures
        all_defined(Seq::empty()).len() == 0,
        all_defined(files.push(file)) == all_defined(files) + file.defined,
        !symbol_table(Seq::empty()).contains_key(name),
        symbol_table(defined.push(s)).contains_key(name) <==> symbol_table(defined).contains_key(
            name,
        ) || name == s.module + seq!['.'] + s.qualname,
        name == s.module + seq!['.'] + s.qualname ==> symbol_table(defined.push(s))[name] == s,
        name != s.module + seq!['.'] + s.qualname && symbol_table(defined).contains_key(name)
            ==> symbol_table(defined.push(s))[name] == symbol_table(defined)[name],
{
    assert(files.push(file).drop_last() =~= files);
    assert(defined.push(s).drop_last() =~= defined);
    assert(s.full_name() =~= s.module + seq!['.'] + s.qualname);
}

/// A call `f()` reaches every function `f` of the caller's own module, where it has one, and else
/// every function `f` of all modules.
pub proof fn law_bare_call(
    table: Map<Seq<char>, SymbolView>,
    module: Seq<char>,
    caller: Seq<char>,
    callee: Seq<char>,
    target: Seq<char>,
)
    requires
        !callee.contains('.'),
    ensures
        resolution(table, module, caller, callee).contains(target) <==> table.contains_key(target)
            && short_name(target) == callee && (table[target].module == module || !exists|
            t: Seq<char>,
        | #[trigger]
            table.contains_key(t) && short_name(t) == callee && table[t].module == module),
{
    law_name_is_cut_at_its_last_dot(Seq::empty(), callee);
    let local = in_module(table, callee, module);
    if exists|t: Seq<char>| #[trigger]
        table.contains_key(t) && short_name(t) == callee && table[t].module == module {
        let t = choose|t: Seq<char>| #[trigger]
            table.contains_key(t) && short_name(t) == callee && table[t].module == module;
        assert(local.contains(t));
        assert(!(local =~= Set::empty()));
    } else {
        assert forall|t: Seq<char>| !local.contains(t) by {
            assert(table.contains_key(t) || !table.contains_key(t));
        }
        assert(local =~= Set::empty());
    }
}

/// The qualified name is `class.name`, alone or behind something and a dot.
pub open spec fn is_name_of_method(
    qualname: Seq<char>,
    class: Seq<char>,
    name: Seq<char>,
) -> bool {
    ||| qualname == class + seq!['.'] + name
    ||| exists|a: Seq<char>| qualname == #[trigger] (a + seq!['.'] + (class + seq!['.'] + name))
}

proof fn lemma_name_of_method(qualname: Seq<char>, class: Seq<char>, name: Seq<char>)
    ensures
        ends_in_parts(qualname, dotted(class, name)) <==> is_name_of_method(qualname, class, name),
{
    law_ends_in_parts(qualname, dotted(class, name));
    assert(dotted(class, name) =~= class + seq!['.'] + name);
}

/// A call `x.f()` reaches the methods `f` of the classes `x`, where there are any. Where there are
/// none, it reaches every known function `x` whose qualified name has no dot in it, in whatever
/// module it stands, and nothing else.
pub proof fn law_qualified_call(
    table: Map<Seq<char>, SymbolView>,
    module: Seq<char>,
    caller: Seq<char>,
    x: Seq<char>,
    f: Seq<char>,
    target: Seq<char>,
)
    requires
        x != "self"@,
        x != "cls"@,
        !f.contains('.'),
    ensures
        ({
            let reached = resolution(table, module, caller, x + seq!['.'] + f);
            let some = exists|t: Seq<char>| #[trigger]
                table.contains_key(t) && short_name(t) == f && is_name_of_method(
                    table[t].qualname,
                    x,
                    f,
                );
            &&& some ==> (reached.contains(target) <==> table.contains_key(target) && short_name(
                target,
            ) == f && is_name_of_method(table[target].qualname, x, f))
            &&& !some ==> (reached.contains(target) <==> table.contains_key(target) && short_name(
                target,
            ) == x && !table[target].qualname.contains('.'))
        }),
{
    law_name_is_cut_at_its_last_dot(x, f);
    let methods = in_class(table, f, x);
    assert forall|t: Seq<char>| #[trigger]
        methods.contains(t) <==> table.contains_key(t) && short_name(t) == f && is_name_of_method(
            table[t].qualname,
            x,
            f,
        ) by {
        lemma_name_of_method(table[t].qualname, x, f);
    }
    if exists|t: Seq<char>| #[trigger]
        table.contains_key(t) && short_name(t) == f && is_name_of_method(table[t].qualname, x, f) {
        let t = choose|t: Seq<char>| #[trigger]
            table.contains_key(t) && short_name(t) == f && is_name_of_method(
                table[t].qualname,
                x,
                f,
            );
        assert(methods.contains(t));
        assert(!(methods =~= Set::empty()));
    } else {
        assert forall|t: Seq<char>| !methods.contains(t) by {
            assert(table.contains_key(t) || !table.contains_key(t));
        }
        assert(methods =~= Set::empty());
        assert(resolution(table, module, caller, x + seq!['.'] + f) == top_level(table, x));
    }
}

/// Symbol `t` is the method `f` of the class with the qualified name `class`, in `module`.
pub open spec fn is_at(
    table: Map<Seq<char>, SymbolView>,
    t: Seq<char>,
    module: Seq<char>,
    class: Seq<char>,
    f: Seq<char>,
) -> bool {
    table.contains_key(t) && short_name(t) == f && table[t].module == module && table[t].qualname
        == class + seq!['.'] + f
}

proof fn lemma_at(
    table: Map<Seq<char>, SymbolView>,
    module: Seq<char>,
    class: Seq<char>,
    f: Seq<char>,
)
    ensures
        forall|t: Seq<char>| #[trigger]
            exactly(table, f, module, dotted(class, f)).contains(t) <==> is_at(
                table,
                t,
                module,
                class,
                f,
            ),
        (exists|t: Seq<char>| #[trigger] is_at(table, t, module, class, f)) <==> !(exactly(
            table,
            f,
            module,
            dotted(class, f),
        ) =~= Set::empty()),
{
    assert(dotted(class, f) =~= class + seq!['.'] + f);
    let here = exactly(table, f, module, dotted(class, f));
    if exists|t: Seq<char>| #[trigger] is_at(table, t, module, class, f) {
        let t = choose|t: Seq<char>| #[trigger] is_at(table, t, module, class, f);
        assert(here.contains(t));
    } else {
        assert forall|t: Seq<char>| !here.contains(t) by {
            assert(!is_at(table, t, module, class, f));
        }
    }
}

/// The method `f` of some class called `class`, wherever it stands.
pub open spec fn is_namesake(
    table: Map<Seq<char>, SymbolView>,
    t: Seq<char>,
    class: Seq<char>,
    f: Seq<char>,
) -> bool {
    table.contains_key(t) && short_name(t) == f && is_name_of_method(table[t].qualname, class, f)
}

proof fn lemma_namesake(table: Map<Seq<char>, SymbolView>, class: Seq<char>, f: Seq<char>)
    ensures
        forall|t: Seq<char>| #[trigger]
            in_class(table, f, class).contains(t) <==> is_namesake(table, t, class, f),
        (exists|t: Seq<char>| #[trigger] is_namesake(table, t, class, f)) <==> !(in_class(
            table,
            f,
            class,
        ) =~= Set::empty()),
{
    let here = in_class(table, f, class);
    assert forall|t: Seq<char>| #[trigger] here.contains(t) <==> is_namesake(table, t, class, f) by {
        lemma_name_of_method(table[t].qualname, class, f);
    }
    if exists|t: Seq<char>| #[trigger] is_namesake(table, t, class, f) {
        let t = choose|t: Seq<char>| #[trigger] is_namesake(table, t, class, f);
        assert(here.contains(t));
    } else {
        assert forall|t: Seq<char>| !here.contains(t) by {
            assert(!is_namesake(table, t, class, f));
        }
    }
}

/// A call `self.f()` or `cls.f()` from the method `m` of a class: it reaches the method `f` of that
/// very class, where it has one; else the methods `f` of the classes of that name, where there are
/// any; else every `f`.
pub proof fn law_self_call(
    table: Map<Seq<char>, SymbolView>,
    module: Seq<char>,
    class: Seq<char>,
    m: Seq<char>,
    owner: Seq<char>,
    f: Seq<char>,
    target: Seq<char>,
)
    requires
        owner == "self"@ || owner == "cls"@,
        !m.contains('.'),
        !f.contains('.'),
        !table.contains_key(module + seq!['.'] + class),
    ensures
        ({
            let reached = resolution(
                table,
                module,
                class + seq!['.'] + m,
                owner + seq!['.'] + f,
            );
            let own = exists|t: Seq<char>| #[trigger] is_at(table, t, module, class, f);
            let alike = exists|t: Seq<char>| #[trigger]
                is_namesake(table, t, short_name(class), f);
            reached.contains(target) <==> if own {
                is_at(table, target, module, class, f)
            } else if alike {
                is_namesake(table, target, short_name(class), f)
            } else {
                table.contains_key(target) && short_name(target) == f
            }
        }),
{
    law_name_is_cut_at_its_last_dot(class, m);
    law_name_is_cut_at_its_last_dot(owner, f);
    lemma_at(table, module, class, f);
    lemma_namesake(table, short_name(class), f);
    assert(dotted(module, class) =~= module + seq!['.'] + class);
    let caller = class + seq!['.'] + m;
    assert(own_methods(table, module, caller, f) =~= exactly(
        table,
        f,
        module,
        dotted(class, f),
    ));
    assert(namesake_methods(table, module, caller, f) =~= in_class(table, f, short_name(class)));
}

/// A call `self.f()` or `cls.f()` from a function `inner` of a function: where a function `f`
/// stands in the outer one, it reaches that; where neither the outer function nor a class of its name has
/// an `f`, it reaches what the same call from the outer function reaches.
pub proof fn law_self_call_of_inner_function(
    table: Map<Seq<char>, SymbolView>,
    module: Seq<char>,
    outer: Seq<char>,
    inner: Seq<char>,
    owner: Seq<char>,
    f: Seq<char>,
    target: Seq<char>,
)
    requires
        owner == "self"@ || owner == "cls"@,
        !inner.contains('.'),
        !f.contains('.'),
        table.contains_key(module + seq!['.'] + outer),
    ensures
        ({
            let call = owner + seq!['.'] + f;
            let reached = resolution(table, module, outer + seq!['.'] + inner, call);
            let own = exists|t: Seq<char>| #[trigger] is_at(table, t, module, outer, f);
            let alike = exists|t: Seq<char>| #[trigger]
                is_namesake(table, t, short_name(outer), f);
            &&& own ==> (reached.contains(target) <==> is_at(table, target, module, outer, f))
            &&& !own && !alike ==> (reached.contains(target) <==> resolution(
                table,
                module,
                outer,
                call,
            ).contains(target))
        }),
{
    law_name_is_cut_at_its_last_dot(outer, inner);
    law_name_is_cut_at_its_last_dot(owner, f);
    lemma_at(table, module, outer, f);
    lemma_namesake(table, short_name(outer), f);
    assert(dotted(module, outer) =~= module + seq!['.'] + outer);
}

/// The scope `k` names further in than `top`: `top` itself, a dot and the first of the names, and
/// so on.
pub open spec fn scope_at(top: Seq<char>, names: Seq<Seq<char>>, k: int) -> Seq<char> {
    joined(seq![top] + names.take(k), seq!['.'])
}

/// `names` stand in each other, the first of them in `top`, and all but the last are functions. The
/// walk outward from the last ends at `top`: that is no function, or stands in nothing.
pub open spec fn is_nested(
    table: Map<Seq<char>, SymbolView>,
    module: Seq<char>,
    top: Seq<char>,
    names: Seq<Seq<char>>,
) -> bool {
    &&& names.len() > 0
    &&& forall|k: int| 0 <= k < names.len() ==> !(#[trigger] names[k]).contains('.')
    &&& forall|k: int|
        1 <= k < names.len() ==> table.contains_key(
            module + seq!['.'] + #[trigger] scope_at(top, names, k),
        )
    &&& !table.contains_key(module + seq!['.'] + top) || !top.contains('.')
}

proof fn lemma_scope_step(top: Seq<char>, names: Seq<Seq<char>>, k: int)
    requires
        1 <= k <= names.len(),
        !names[k - 1].contains('.'),
    ensures
        qualifier(scope_at(top, names, k)) == Some(scope_at(top, names, k - 1)),
        scope_at(top, names, 0) == top,
{
    let (before, all) = (seq![top] + names.take(k - 1), seq![top] + names.take(k));
    assert(all.drop_last() =~= before);
    assert(all.last() == names[k - 1]);
    law_name_is_cut_at_its_last_dot(scope_at(top, names, k - 1), names[k - 1]);
    assert(seq![top] + names.take(0) =~= seq![top]);
}

/// Some function `f` of the table stands at scope number `k`.
pub open spec fn has_own(
    table: Map<Seq<char>, SymbolView>,
    module: Seq<char>,
    top: Seq<char>,
    names: Seq<Seq<char>>,
    f: Seq<char>,
    k: int,
) -> bool {
    exists|t: Seq<char>| #[trigger] is_at(table, t, module, scope_at(top, names, k), f)
}

/// Some class that is called like scope number `k` has a method `f`.
pub open spec fn has_namesake(
    table: Map<Seq<char>, SymbolView>,
    top: Seq<char>,
    names: Seq<Seq<char>>,
    f: Seq<char>,
    k: int,
) -> bool {
    exists|t: Seq<char>| #[trigger] is_namesake(table, t, short_name(scope_at(top, names, k)), f)
}

proof fn lemma_walk(
    table: Map<Seq<char>, SymbolView>,
    module: Seq<char>,
    top: Seq<char>,
    names: Seq<Seq<char>>,
    f: Seq<char>,
    n: int,
)
    requires
        is_nested(table, module, top, names),
        1 <= n <= names.len(),
    ensures
        forall|c: int|
            0 <= c < n && #[trigger] has_own(table, module, top, names, f, c) && (forall|k: int|
                c < k < n ==> !#[trigger] has_own(table, module, top, names, f, k)) ==> own_methods(
                table,
                module,
                scope_at(top, names, n),
                f,
            ) == exactly(table, f, module, dotted(scope_at(top, names, c), f)),
        (forall|k: int| 0 <= k < n ==> !#[trigger] has_own(table, module, top, names, f, k))
            ==> own_methods(table, module, scope_at(top, names, n), f) =~= Set::empty(),
        forall|c: int|
            0 <= c < n && #[trigger] has_namesake(table, top, names, f, c) && (forall|k: int|
                c < k < n ==> !#[trigger] has_namesake(table, top, names, f, k))
                ==> namesake_methods(table, module, scope_at(top, names, n), f) == in_class(
                table,
                f,
                short_name(scope_at(top, names, c)),
            ),
        (forall|k: int| 0 <= k < n ==> !#[trigger] has_namesake(table, top, names, f, k))
            ==> namesake_methods(table, module, scope_at(top, names, n), f) =~= Set::empty(),
    decreases n,
{
    let (inner, outer) = (scope_at(top, names, n), scope_at(top, names, n - 1));
    assert(!names[n - 1].contains('.'));
    lemma_scope_step(top, names, n);
    lemma_at(table, module, outer, f);
    lemma_namesake(table, short_name(outer), f);
    assert(dotted(module, outer) =~= module + seq!['.'] + outer);
    assert(has_own(table, module, top, names, f, n - 1) <==> !(exactly(
        table,
        f,
        module,
        dotted(outer, f),
    ) =~= Set::empty()));
    assert(has_namesake(table, top, names, f, n - 1) <==> !(in_class(table, f, short_name(outer))
        =~= Set::empty()));
    let (own, alike) = (
        own_methods(table, module, inner, f),
        namesake_methods(table, module, inner, f),
    );
    if n == 1 {
        if is_function(table, module, top) {
            law_name_is_cut_at_its_last_dot(Seq::empty(), top);
            assert(own_methods(table, module, top, f) =~= Set::empty());
            assert(namesake_methods(table, module, top, f) =~= Set::empty());
        }
        assert(outer == top);
        assert(own =~= exactly(table, f, module, dotted(top, f)));
        assert(alike =~= in_class(table, f, short_name(top)));
    } else {
        lemma_walk(table, module, top, names, f, n - 1);
        let (own_before, alike_before) = (
            own_methods(table, module, outer, f),
            namesake_methods(table, module, outer, f),
        );
        assert(is_function(table, module, outer));
        if has_own(table, module, top, names, f, n - 1) {
            assert(own == exactly(table, f, module, dotted(outer, f)));
        } else {
            assert(own == own_before);
        }
        if has_namesake(table, top, names, f, n - 1) {
            assert(alike == in_class(table, f, short_name(outer)));
        } else {
            assert(alike == alike_before);
        }
    }
}

/// A call `self.f()` or `cls.f()` from however deep in functions reaches the `f` of the nearest
/// scope around that has one. Where none has, it reaches the methods `f` of the classes that
/// are called like the nearest scope for which there are any; and where there are none, every `f`.
pub proof fn law_self_call_walks_outward(
    table: Map<Seq<char>, SymbolView>,
    module: Seq<char>,
    top: Seq<char>,
    names: Seq<Seq<char>>,
    owner: Seq<char>,
    f: Seq<char>,
    target: Seq<char>,
    c: int,
)
    requires
        is_nested(table, module, top, names),
        owner == "self"@ || owner == "cls"@,
        !f.contains('.'),
        0 <= c < names.len(),
    ensures
        ({
            let reached = resolution(
                table,
                module,
                joined(seq![top] + names, seq!['.']),
                owner + seq!['.'] + f,
            );
            let n = names.len() as int;
            let scope = scope_at(top, names, c);
            let no_own = forall|k: int|
                0 <= k < n ==> !#[trigger] has_own(table, module, top, names, f, k);
            let no_namesake = forall|k: int|
                0 <= k < n ==> !#[trigger] has_namesake(table, top, names, f, k);
            &&& has_own(table, module, top, names, f, c) && (forall|k: int|
                c < k < n ==> !#[trigger] has_own(table, module, top, names, f, k)) ==> (
            reached.contains(target) <==> is_at(table, target, module, scope, f))
            &&& no_own && has_namesake(table, top, names, f, c) && (forall|k: int|
                c < k < n ==> !#[trigger] has_namesake(table, top, names, f, k)) ==> (
            reached.contains(target) <==> is_namesake(table, target, short_name(scope), f))
            &&& no_own && no_namesake ==> (reached.contains(target) <==> table.contains_key(target)
                && short_name(target) == f)
        }),
{
    let n = names.len() as int;
    let scope = scope_at(top, names, c);
    assert(names.take(n) =~= names);
    lemma_walk(table, module, top, names, f, n);
    law_name_is_cut_at_its_last_dot(owner, f);
    lemma_at(table, module, scope, f);
    lemma_namesake(table, short_name(scope), f);
}

/// A call `self.f()` or `cls.f()` from a function that stands in nothing reaches every `f`.
pub proof fn law_self_call_outside(
    table: Map<Seq<char>, SymbolView>,
    module: Seq<char>,
    caller: Seq<char>,
    owner: Seq<char>,
    f: Seq<char>,
    target: Seq<char>,
)
    requires
        owner == "self"@ || owner == "cls"@,
        !caller.contains('.'),
        !f.contains('.'),
    ensures
        resolution(table, module, caller, owner + seq!['.'] + f).contains(target)
            <==> table.contains_key(target) && short_name(target) == f,
{
    law_name_is_cut_at_its_last_dot(Seq::empty(), caller);
    law_name_is_cut_at_its_last_dot(owner, f);
}

/// The graph of some files knows their definitions, and one name calls another exactly where some
/// call of a file with definitions is made by it, is made by a known symbol, and reaches the other.
pub proof fn law_graph_of_files(
    graph: &CallGraph,
    files: Seq<FileView>,
    caller: Seq<char>,
    target: Seq<char>,
)
    requires
        graph.is_graph_of(files),
    ensures
        graph.table() == symbol_table(all_defined(files)),
        members(graph.callers@, target).contains(caller) <==> exists|f: int, i: int| #[trigger]
            is_call(graph.table(), files, f, i, caller, target),
        members(graph.callees@, caller).contains(target) <==> exists|f: int, i: int| #[trigger]
            is_call(graph.table(), files, f, i, caller, target),
        graph.callers@.contains_key(target) <==> exists|c: Seq<char>| #[trigger]
            members(graph.callers@, target).contains(c),
        graph.callees@.contains_key(caller) <==> exists|t: Seq<char>| #[trigger]
            members(graph.callees@, caller).contains(t),
{
    assert forall|f: int, i: int| #[trigger]
        is_call(graph.table(), files, f, i, caller, target) <==> call_edge(
            files,
            f,
            i,
            caller,
            target,
        ) by {
        if 0 <= f < files.len() && files[f].defined.len() > 0 && 0 <= i < files[f].calls.len() {
            assert(dotted(files[f].defined[0].module, files[f].calls[i].0)
                =~= files[f].defined[0].module + seq!['.'] + files[f].calls[i].0);
        }
    }
    assert(members(graph.callers@, target).contains(caller) <==> calls(files, caller, target));
    assert(members(graph.callees@, caller).contains(target) <==> calls(files, caller, target));
    if calls(files, caller, target) {
        let (f, i) = choose|f: int, i: int| call_edge(files, f, i, caller, target);
        assert(is_call(graph.table(), files, f, i, caller, target));
    }
}

/// Call number `i` of file number `f` is made by `caller` and reaches `target`.
pub open spec fn is_call(
    table: Map<Seq<char>, SymbolView>,
    files: Seq<FileView>,
    f: int,
    i: int,
    caller: Seq<char>,
    target: Seq<char>,
) -> bool {
    &&& 0 <= f < files.len()
    &&& 0 <= i < files[f].calls.len()
    &&& files[f].defined.len() > 0
    &&& caller == files[f].defined[0].module + seq!['.'] + files[f].calls[i].0
    &&& table.contains_key(caller)
    &&& resolution(
        table,
        files[f].defined[0].module,
        files[f].calls[i].0,
        files[f].calls[i].1,
    ).contains(target)
}

/// A chain of no steps leads from a name to itself and nowhere else; one of a step more leads to
/// the callers of what one of the given length leads to.
pub proof fn law_chains(
    callers: Map<Seq<char>, NameSet>,
    from: Seq<char>,
    to: Seq<char>,
    d: nat,
)
    ensures
        leads(callers, from, to, 0) <==> from == to,
        leads(callers, from, to, d + 1) <==> exists|mid: Seq<char>| #[trigger]
            leads(callers, from, mid, d) && members(callers, mid).contains(to),
{
    if from == to {
        let path = seq![from];
        assert(is_chain_between(callers, from, to, path));
    }
    if leads(callers, from, to, 0) {
        let path = choose|path: Seq<Seq<char>>|
            path.len() == 1 && #[trigger] is_chain_between(callers, from, to, path);
        assert(path[0] == from && path.last() == to);
    }
    if leads(callers, from, to, d + 1) {
        let path = choose|path: Seq<Seq<char>>|
            path.len() == d + 2 && #[trigger] is_chain_between(callers, from, to, path);
        let front = path.drop_last();
        assert forall|k: int| 0 <= k < front.len() - 1 implies #[trigger] is_step(
            callers,
            front,
            k,
        ) by {
            assert(is_step(callers, path, k));
        }
        assert(is_chain_between(callers, from, front.last(), front));
        assert(is_step(callers, path, d as int));
        assert(leads(callers, from, front.last(), d));
    }
    if exists|mid: Seq<char>| #[trigger]
        leads(callers, from, mid, d) && members(callers, mid).contains(to) {
        let mid = choose|mid: Seq<char>| #[trigger]
            leads(callers, from, mid, d) && members(callers, mid).contains(to);
        let front = choose|path: Seq<Seq<char>>|
            path.len() == d + 1 && #[trigger] is_chain_between(callers, from, mid, path);
        let path = front.push(to);
        assert forall|k: int| 0 <= k < path.len() - 1 implies #[trigger] is_step(
            callers,
            path,
            k,
        ) by {
            if k < front.len() - 1 {
                assert(is_step(callers, front, k));
            }
        }
        assert(is_chain_between(callers, from, to, path));
    }
}

/// What a change affects are all names but the changed one that some chain of callers leads to, of
/// whatever length; the distance of a name is the length of the shortest.
pub proof fn law_affected(graph: &CallGraph, sym: Seq<char>, name: Seq<char>, d: nat)
    ensures
        graph.affected(sym).contains(name) <==> name != sym && exists|k: nat| #[trigger]
            leads(graph.callers@, sym, name, k),
        graph.distance(sym, name, d) <==> leads(graph.callers@, sym, name, d) && forall|k: nat|
            #[trigger] leads(graph.callers@, sym, name, k) ==> d <= k,
{
    law_chains(graph.callers@, sym, name, 0);
    if exists|k: nat| #[trigger] leads(graph.callers@, sym, name, k) {
        let k = choose|k: nat| #[trigger] leads(graph.callers@, sym, name, k);
        let e = lemma_least(graph.callers@, sym, name, k);
        assert(graph.distance(sym, name, e));
    }
}

proof fn lemma_least(
    callers: Map<Seq<char>, NameSet>,
    from: Seq<char>,
    to: Seq<char>,
    d: nat,
) -> (e: nat)
    requires
        leads(callers, from, to, d),
    ensures
        e <= d,
        distance_is(callers, from, to, e),
    decreases d,
{
    if exists|k: nat| k < d && #[trigger] leads(callers, from, to, k) {
        let k = choose|k: nat| k < d && #[trigger] leads(callers, from, to, k);
        lemma_least(callers, from, to, k)
    } else {
        d
    }
}

/// A blast radius lists each affected name once, with its distance, and nothing else; nearer names
/// come first.
pub proof fn law_radius(
    graph: &CallGraph,
    sym: Seq<char>,
    radius: Seq<(Seq<char>, nat)>,
    name: Seq<char>,
    d: nat,
    i: int,
    j: int,
)
    requires
        graph.is_radius(sym, radius),
    ensures
        radius.contains((name, d)) <==> name != sym && leads(graph.callers@, sym, name, d)
            && forall|k: nat| #[trigger] leads(graph.callers@, sym, name, k) ==> d <= k,
        0 <= i < j < radius.len() ==> radius[i].0 != radius[j].0 && radius[i].1 <= radius[j].1,
{
    law_affected(graph, sym, name, d);
    law_chains(graph.callers@, sym, name, 0);
    if radius.contains((name, d)) {
        let k = choose|k: int| 0 <= k < radius.len() && radius[k] == (name, d);
        assert(graph.distance(sym, radius[k].0, radius[k].1));
        assert(d >= 1);
        if name == sym {
            assert(leads(graph.callers@, sym, name, 0));
        }
    }
    if name != sym && graph.distance(sym, name, d) {
        assert(d >= 1);
    }
}

/// The radius as it is given says the names and depths that it holds, in order.
pub proof fn law_radius_entries(radius: Seq<(String, usize)>, i: int)
    ensures
        radius_view(radius).len() == radius.len(),
        0 <= i < radius.len() ==> radius_view(radius)[i] == (radius[i].0@, radius[i].1 as nat),
{
}

/// A call chain starts at the symbol and ends at the target; each name in it calls the one before;
/// no shorter chain joins the two; and it is empty exactly where none does.
pub proof fn law_call_chain(
    graph: &CallGraph,
    sym: Seq<char>,
    target: Seq<char>,
    chain: Seq<Seq<char>>,
    k: int,
    d: nat,
)
    requires
        graph.is_shortest_chain(sym, target, chain),
    ensures
        chain.len() == 0 <==> forall|e: nat| !#[trigger] leads(graph.callers@, sym, target, e),
        chain.len() > 0 ==> chain[0] == sym && chain.last() == target,
        0 <= k < chain.len() - 1 ==> members(graph.callers@, chain[k]).contains(chain[k + 1]),
        leads(graph.callers@, sym, target, d) ==> chain.len() <= d + 1,
{
    if chain.len() > 0 {
        assert(is_chain(graph.callers@, chain));
        if 0 <= k < chain.len() - 1 {
            assert(is_step(graph.callers@, chain, k));
        }
        law_affected(graph, sym, target, (chain.len() - 1) as nat);
    }
}

/// The callers that count are all but those that are known to stand in a file whose path holds a
/// pattern.
pub proof fn law_counted_callers(
    graph: &CallGraph,
    sym: Seq<char>,
    exclude: Seq<Seq<char>>,
    caller: Seq<char>,
)
    ensures
        graph.excludes(caller, exclude) <==> graph.table().contains_key(caller) && exists|
            i: int,
            a: Seq<char>,
            b: Seq<char>,
        |
            0 <= i < exclude.len() && graph.table()[caller].file == #[trigger] (a + exclude[i] + b),
        graph.counted_callers(sym, exclude).contains(caller) <==> members(
            graph.callers@,
            sym,
        ).contains(caller) && !graph.excludes(caller, exclude),
{
    law_exclusion_is_by_substring(graph.table()[caller].file, exclude);
}

/// Each symbol of the graph has one count, that of its counted callers.
pub proof fn law_counts(graph: &CallGraph, exclude: Seq<Seq<char>>, i: int)
    ensures
        graph.counts(exclude).len() == graph.symbols.order().len(),
        0 <= i < graph.symbols.order().len() ==> graph.counts(exclude)[i]
            == graph.counted_callers(graph.symbols.order()[i], exclude).len() as usize,
{
}

/// Counts ascend where none is followed by a smaller one.
pub proof fn law_ascending(s: Seq<usize>, baseline: &RepoBaseline)
    ensures
        is_ascending(s) <==> forall|i: int, j: int| 0 <= i < j < s.len() ==> s[i] <= s[j],
        baseline.is_ordered() <==> is_ascending(baseline.sorted_counts@),
{
    if forall|i: int, j: int| 0 <= i < j < s.len() ==> s[i] <= s[j] {
        assert forall|i: int, j: int| 0 <= i <= j < s.len() implies s[i] <= s[j] by {
            if i < j {
                assert(s[i] <= s[j]);
            }
        }
    }
}

/// How many counts do not exceed a limit.
pub proof fn law_count_up_to(s: Seq<usize>, limit: usize)
    ensures
        count_up_to(s, limit) == s.filter(|x: usize| x <= limit).len(),
    decreases s.len(),
{
    reveal(Seq::filter);
    if s.len() > 0 {
        law_count_up_to(s.drop_last(), limit);
    }
}

/// The percentile of a count is the quotient of the number of counts that do not exceed it and of
/// the number of all, and 0 where there are none. The value at a percentage stands as many places
/// from the start as that part of all counts, and not beyond the last.
pub proof fn law_percentile(baseline: &RepoBaseline, count: usize, pct: usize)
    ensures
        ({
            let s = baseline.sorted_counts@;
            &&& s.len() == 0 ==> baseline.percentile(count) == zero()
            &&& s.len() > 0 ==> baseline.percentile(count) == quotient(
                s.filter(|x: usize| x <= count).len(),
                s.len(),
            )
            &&& s.len() > 0 ==> baseline.place_of(pct) == {
                let place = quotient(pct as nat, 100).times(of_int(s.len())).whole();
                if place > s.len() - 1 {
                    s.len() - 1
                } else {
                    place as int
                }
            }
        }),
{
    law_count_up_to(baseline.sorted_counts@, count);
}

} // verus!
