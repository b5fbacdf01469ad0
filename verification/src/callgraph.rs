//! The call graph of a repository.
use crate::binary64::{lemma_quotient, of_int, one, quotient, ulp, zero, Binary64, LEAST_MANTISSA};
use crate::names::{lemma_next_kept, lemma_push_to_set, listed, members, NameMap, NameSet};
use crate::order::{
    ascending, count_up_to, is_ascending, lemma_count_split, lemma_count_up_to,
    lemma_count_up_to_keeps_order, rank,
};
use crate::parser::{symbol_views, FileSymbols, FileView, Symbol, SymbolView};
use crate::reach::{
    distance_is, expand, is_chain_between, is_search, lemma_depth_is_distance,
    lemma_distance_is_depth, lemma_finished_search, leads, parent_fits, start_search, trace_back,
};
use crate::text::{
    contains, dotted, ends_with, has_char, has_infix, join_dotted, last_dot, lemma_last_dot,
    lemma_last_dot_is, qualifier, same, short_name, split_last_dot, views,
};
use vstd::prelude::*;
use vstd::string::*;

verus! {

/// What each file of `files` lists.
pub open spec fn file_views(files: Seq<FileSymbols>) -> Seq<FileView> {
    files.map_values(|f: FileSymbols| f@)
}

/// The definitions of all files, one file after the other.
pub open spec fn all_defined(files: Seq<FileView>) -> Seq<SymbolView>
    decreases files.len(),
{
    if files.len() == 0 {
        Seq::empty()
    } else {
        all_defined(files.drop_last()) + files.last().defined
    }
}

/// The symbol that each full name stands for: the last definition of that name.
pub open spec fn symbol_table(defined: Seq<SymbolView>) -> Map<Seq<char>, SymbolView>
    decreases defined.len(),
{
    if defined.len() == 0 {
        Map::empty()
    } else {
        symbol_table(defined.drop_last()).insert(defined.last().full_name(), defined.last())
    }
}

/// The full names that end in the component `short`.
pub open spec fn candidates(table: Map<Seq<char>, SymbolView>, short: Seq<char>) -> Set<
    Seq<char>,
> {
    Set::new(|t: Seq<char>| table.contains_key(t) && short_name(t) == short)
}

/// What a symbol has to be for a call to mean it.
pub enum Criterion<'a> {
    /// It stands in no class and in no other function.
    TopLevel,
    /// It stands in this module.
    InModule(&'a str),
    /// It stands in this module and has this qualified name.
    Exactly(&'a str, &'a str),
    /// Its qualified name ends in these parts.
    EndsIn(&'a str),
}

/// The last parts of the dotted name `s` are those of `end`.
pub open spec fn ends_in_parts(s: Seq<char>, end: Seq<char>) -> bool {
    s == end || seq!['.'].add(end).is_suffix_of(s)
}

/// Whether the last parts of the dotted name `s` are those of `end`.
fn has_last_parts(s: &str, end: &str) -> (r: bool)
    ensures
        r == ends_in_parts(s@, end@),
{
    let mut tail = ".".to_owned();
    tail.append(end);
    proof {
        reveal_strlit(".");
        assert(tail@ =~= seq!['.'].add(end@));
    }
    same(s, end) || ends_with(s, tail.as_str())
}

impl<'a> Criterion<'a> {
    pub open spec fn accepts(&self, symbol: SymbolView) -> bool {
        match self {
            Criterion::TopLevel => is_top_level(symbol),
            Criterion::InModule(module) => symbol.module == module@,
            Criterion::Exactly(module, qualname) => symbol.module == module@ && symbol.qualname
                == qualname@,
            Criterion::EndsIn(end) => ends_in_parts(symbol.qualname, end@),
        }
    }
}

pub open spec fn is_top_level(symbol: SymbolView) -> bool {
    !symbol.qualname.contains('.')
}

/// The functions called `name` that stand in no class and in no other function.
pub open spec fn top_level(table: Map<Seq<char>, SymbolView>, name: Seq<char>) -> Set<Seq<char>> {
    candidates(table, name).filter(|t: Seq<char>| is_top_level(table[t]))
}

/// The functions called `name` that stand in `module`.
pub open spec fn in_module(
    table: Map<Seq<char>, SymbolView>,
    name: Seq<char>,
    module: Seq<char>,
) -> Set<Seq<char>> {
    candidates(table, name).filter(|t: Seq<char>| table[t].module == module)
}

/// The function called `name` that stands in `module` under the qualified name `qualname`.
pub open spec fn exactly(
    table: Map<Seq<char>, SymbolView>,
    name: Seq<char>,
    module: Seq<char>,
    qualname: Seq<char>,
) -> Set<Seq<char>> {
    candidates(table, name).filter(
        |t: Seq<char>| table[t].module == module && table[t].qualname == qualname,
    )
}

/// The methods called `name` of the classes called `class`: their qualified name is `class.name`,
/// behind what is around the class, if anything.
pub open spec fn in_class(
    table: Map<Seq<char>, SymbolView>,
    name: Seq<char>,
    class: Seq<char>,
) -> Set<Seq<char>> {
    candidates(table, name).filter(
        |t: Seq<char>| ends_in_parts(table[t].qualname, dotted(class, name)),
    )
}

/// `first` where it has members, `second` where it has none.
pub open spec fn prefer(first: Set<Seq<char>>, second: Set<Seq<char>>) -> Set<Seq<char>> {
    if first =~= Set::empty() {
        second
    } else {
        first
    }
}

/// `name` is how a method refers to its own class.
pub open spec fn is_self(name: Seq<char>) -> bool {
    name == "self"@ || name == "cls"@
}

/// `qualname` is that of a function of `module`, and not of a class.
pub open spec fn is_function(
    table: Map<Seq<char>, SymbolView>,
    module: Seq<char>,
    qualname: Seq<char>,
) -> bool {
    table.contains_key(dotted(module, qualname))
}

/// The method `name` of the definition around `qualname`, in `module`. Where that is a function
/// and has none, it is the one of the definition around it: outward up to the class.
pub open spec fn own_methods(
    table: Map<Seq<char>, SymbolView>,
    module: Seq<char>,
    qualname: Seq<char>,
    name: Seq<char>,
) -> Set<Seq<char>>
    decreases qualname.len(),
{
    match qualifier(qualname) {
        Some(outer) => {
            proof {
                lemma_last_dot(qualname);
            }
            prefer(
                exactly(table, name, module, dotted(outer, name)),
                if is_function(table, module, outer) {
                    own_methods(table, module, outer, name)
                } else {
                    Set::empty()
                },
            )
        },
        None => Set::empty(),
    }
}

/// The methods `name` of the classes that are called like the definition around `qualname`, in
/// `module`. Where that is a function and gives none, they are those for the definition around
/// it: outward up to the class.
pub open spec fn namesake_methods(
    table: Map<Seq<char>, SymbolView>,
    module: Seq<char>,
    qualname: Seq<char>,
    name: Seq<char>,
) -> Set<Seq<char>>
    decreases qualname.len(),
{
    match qualifier(qualname) {
        Some(outer) => {
            proof {
                lemma_last_dot(qualname);
            }
            prefer(
                in_class(table, name, short_name(outer)),
                if is_function(table, module, outer) {
                    namesake_methods(table, module, outer, name)
                } else {
                    Set::empty()
                },
            )
        },
        None => Set::empty(),
    }
}

/// The symbols that a call to `callee` may reach, from the function `caller` of `module`.
///
/// - `f()` reaches the functions `f` of the same module; where it has none, every `f`.
/// - `self.f()` and `cls.f()` reach the method `f` of the caller's class, which may be some
///   functions further out. Where it has none, as where `f` is inherited, they reach the `f` of a
///   class of the same name elsewhere; where there is none either, or where nothing is around the
///   caller, every `f`.
/// - `x.f()` reaches the method `f` of a class `x`; where there is none, the top-level
///   functions called `x`.
pub open spec fn resolution(
    table: Map<Seq<char>, SymbolView>,
    module: Seq<char>,
    caller: Seq<char>,
    callee: Seq<char>,
) -> Set<Seq<char>> {
    let name = short_name(callee);
    match qualifier(callee) {
        None => prefer(in_module(table, name, module), candidates(table, name)),
        Some(owner) => if is_self(owner) {
            prefer(
                own_methods(table, module, caller, name),
                prefer(namesake_methods(table, module, caller, name), candidates(table, name)),
            )
        } else {
            prefer(in_class(table, name, owner), top_level(table, owner))
        },
    }
}

/// Call number `i` of file number `f` leads from `caller` to `target`.
pub open spec fn call_edge(
    files: Seq<FileView>,
    f: int,
    i: int,
    caller: Seq<char>,
    target: Seq<char>,
) -> bool {
    let table = symbol_table(all_defined(files));
    &&& 0 <= f < files.len()
    &&& 0 <= i < files[f].calls.len()
    &&& files[f].defined.len() > 0
    &&& caller == dotted(files[f].defined[0].module, files[f].calls[i].0)
    &&& table.contains_key(caller)
    &&& resolution(
        table,
        files[f].defined[0].module,
        files[f].calls[i].0,
        files[f].calls[i].1,
    ).contains(target)
}

/// Some call leads from `caller` to `target`.
pub open spec fn calls(files: Seq<FileView>, caller: Seq<char>, target: Seq<char>) -> bool {
    exists|f: int, i: int| call_edge(files, f, i, caller, target)
}

/// Whether the last component of a full name is that of the qualified name in it.
proof fn lemma_short_name_of_full(s: SymbolView)
    ensures
        short_name(s.full_name()) == short_name(s.qualname),
{
    let full = s.full_name();
    let m = s.module.len();
    let k = last_dot(s.qualname);
    lemma_last_dot(s.qualname);
    assert(forall|i: int| 0 <= i < s.qualname.len() ==> full[m + 1 + i] == s.qualname[i]);
    assert(full[m as int] == '.');
    assert forall|i: int| m + 1 + k < i < full.len() implies full[i] != '.' by {
        assert(full[i] == s.qualname[i - m - 1]);
    }
    if k >= 0 {
        assert(full[m + 1 + k] == s.qualname[k]);
    }
    lemma_last_dot_is(full, m + 1 + k);
    assert(short_name(full) =~= short_name(s.qualname));
}

/// What each symbol of `symbols` says.
pub open spec fn table_view(symbols: Map<Seq<char>, Symbol>) -> Map<Seq<char>, SymbolView> {
    symbols.map_values(|s: Symbol| s@)
}

/// The full names of those definitions whose own name is `short`, in order.
pub open spec fn called(defined: Seq<SymbolView>, short: Seq<char>) -> Seq<Seq<char>>
    decreases defined.len(),
{
    if defined.len() == 0 {
        Seq::empty()
    } else {
        let before = called(defined.drop_last(), short);
        if short_name(defined.last().qualname) == short {
            before.push(defined.last().full_name())
        } else {
            before
        }
    }
}

/// `index` lists the definitions for each short name, in order.
pub open spec fn lists_definitions(
    index: Map<Seq<char>, Vec<String>>,
    defined: Seq<SymbolView>,
) -> bool {
    forall|short: Seq<char>| #[trigger] views(listed(index, short)) == called(defined, short)
}

/// The definitions that are listed for a short name are the candidates for it.
proof fn lemma_called_are_candidates(defined: Seq<SymbolView>, short: Seq<char>)
    ensures
        called(defined, short).to_set() == candidates(symbol_table(defined), short),
    decreases defined.len(),
{
    if defined.len() == 0 {
        assert(called(defined, short).to_set() =~= candidates(symbol_table(defined), short));
    } else {
        let front = defined.drop_last();
        let last = defined.last();
        lemma_called_are_candidates(front, short);
        lemma_short_name_of_full(last);
        let before = candidates(symbol_table(front), short);
        let now = candidates(symbol_table(defined), short);
        if short_name(last.qualname) == short {
            lemma_push_to_set(called(front, short), last.full_name());
            assert(now =~= before.insert(last.full_name()));
        } else {
            assert(now =~= before);
        }
    }
}

/// `index` lists the candidates for each short name.
pub open spec fn indexes(
    index: Map<Seq<char>, Vec<String>>,
    table: Map<Seq<char>, SymbolView>,
) -> bool {
    forall|short: Seq<char>| #[trigger]
        views(listed(index, short)).to_set() == candidates(table, short)
}

/// All definitions by full name, and the full names by short name.
fn register(files: &[FileSymbols]) -> (r: (NameMap<Symbol>, NameMap<Vec<String>>))
    ensures
        table_view(r.0@) == symbol_table(all_defined(file_views(files@))),
        lists_definitions(r.1@, all_defined(file_views(files@))),
        indexes(r.1@, table_view(r.0@)),
{
    let mut symbols: NameMap<Symbol> = NameMap::new();
    let mut index: NameMap<Vec<String>> = NameMap::new();
    let ghost fv = file_views(files@);
    assert(table_view(symbols@) =~= Map::empty());
    assert forall|short: Seq<char>| #[trigger]
        views(listed(index@, short)) == called(all_defined(fv.take(0)), short) by {
        assert(views(listed(index@, short)) =~= Seq::empty());
    }
    let mut f: usize = 0;
    while f < files.len()
        invariant
            f <= files@.len(),
            fv == file_views(files@),
            table_view(symbols@) == symbol_table(all_defined(fv.take(f as int))),
            lists_definitions(index@, all_defined(fv.take(f as int))),
        decreases files@.len() - f,
    {
        let defined = &files[f].defined;
        let ghost seen = all_defined(fv.take(f as int));
        let ghost here = fv[f as int].defined;
        assert(seen + here.take(0) =~= seen);
        let mut i: usize = 0;
        while i < defined.len()
            invariant
                i <= defined@.len(),
                here == symbol_views(defined@),
                table_view(symbols@) == symbol_table(seen + here.take(i as int)),
                lists_definitions(index@, seen + here.take(i as int)),
            decreases defined@.len() - i,
        {
            let symbol = &defined[i];
            let full = symbol.full_name();
            let (_, short) = split_last_dot(symbol.qualname.as_str());
            let ghost before = table_view(symbols@);
            let ghost index_before = index@;
            symbols.insert(full.as_str(), symbol.clone());
            index.append_item(short.as_str(), full.clone());
            proof {
                let defs = seen + here.take(i + 1);
                assert(defs.last() == symbol@);
                assert(defs.drop_last() =~= seen + here.take(i as int));
                assert(table_view(symbols@) =~= before.insert(full@, symbol@));
                assert forall|k: Seq<char>| #[trigger]
                    views(listed(index@, k)) == called(defs, k) by {
                    assert(views(listed(index_before, k)) == called(defs.drop_last(), k));
                    if k == short@ {
                        assert(views(listed(index@, k)) =~= views(listed(index_before, k)).push(
                            full@,
                        ));
                    }
                }
            }
            i += 1;
        }
        proof {
            let done = fv.take(f + 1);
            assert(done.drop_last() =~= fv.take(f as int));
            assert(here.take(i as int) =~= here);
            assert(all_defined(done) == seen + here);
        }
        f += 1;
    }
    proof {
        assert(fv.take(f as int) =~= fv);
        assert forall|short: Seq<char>| #[trigger]
            views(listed(index@, short)).to_set() == candidates(table_view(symbols@), short) by {
            lemma_called_are_candidates(all_defined(fv), short);
        }
    }
    (symbols, index)
}

/// `name` is that of a known symbol that meets `criterion`.
spec fn is_accepted(
    table: Map<Seq<char>, SymbolView>,
    criterion: &Criterion,
    name: Seq<char>,
) -> bool {
    table.contains_key(name) && criterion.accepts(table[name])
}

/// The names of `targets` whose symbols meet `criterion`, in order.
fn select(targets: &Vec<String>, criterion: &Criterion, symbols: &NameMap<Symbol>) -> (r: Vec<
    String,
>)
    ensures
        views(r@) == views(targets@).filter(
            |t: Seq<char>| is_accepted(table_view(symbols@), criterion, t),
        ),
{
    let mut r: Vec<String> = Vec::new();
    let ghost keep = |t: Seq<char>| is_accepted(table_view(symbols@), criterion, t);
    let ghost all = views(targets@);
    let mut i: usize = 0;
    assert(views(r@) =~= all.take(0).filter(keep));
    while i < targets.len()
        invariant
            i <= targets@.len(),
            all == views(targets@),
            keep == (|t: Seq<char>| is_accepted(table_view(symbols@), criterion, t)),
            views(r@) == all.take(i as int).filter(keep),
        decreases targets@.len() - i,
    {
        let target = &targets[i];
        let ghost before = r@;
        let accepted: bool = match symbols.get(target.as_str()) {
            Some(symbol) => match criterion {
                Criterion::TopLevel => !has_char(symbol.qualname.as_str(), '.'),
                Criterion::InModule(module) => same(symbol.module.as_str(), module),
                Criterion::Exactly(module, qualname) => same(symbol.module.as_str(), module)
                    && same(symbol.qualname.as_str(), qualname),
                Criterion::EndsIn(end) => has_last_parts(symbol.qualname.as_str(), end),
            },
            None => false,
        };
        proof {
            let now = all.take(i + 1);
            assert(now.drop_last() =~= all.take(i as int));
            assert(now.last() == target@);
            assert(accepted == keep(target@));
            reveal(Seq::filter);
        }
        if accepted {
            r.push(target.clone());
            assert(views(r@) =~= views(before).push(target@));
        }
        i += 1;
    }
    assert(all.take(i as int) =~= all);
    r
}

/// What is kept of a sequence are those of its elements that are kept.
proof fn lemma_filter_to_set(s: Seq<Seq<char>>, keep: spec_fn(Seq<char>) -> bool)
    ensures
        s.filter(keep).to_set() == s.to_set().filter(keep),
{
    assert forall|x: Seq<char>| s.filter(keep).contains(x) <==> s.contains(x) && keep(x) by {
        if s.filter(keep).contains(x) {
            let k = choose|k: int| 0 <= k < s.filter(keep).len() && s.filter(keep)[k] == x;
            s.lemma_filter_pred(keep, k);
            s.lemma_filter_contains_rev(keep, x);
        }
        if s.contains(x) && keep(x) {
            let k = choose|k: int| 0 <= k < s.len() && s[k] == x;
            s.lemma_filter_contains(keep, k);
        }
    }
    assert(s.filter(keep).to_set() =~= s.to_set().filter(keep));
}

/// The candidates for `name` whose symbols meet `criterion`.
fn select_candidates(
    targets: &Vec<String>,
    criterion: &Criterion,
    symbols: &NameMap<Symbol>,
    Ghost(name): Ghost<Seq<char>>,
) -> (r: Vec<String>)
    requires
        views(targets@).to_set() == candidates(table_view(symbols@), name),
    ensures
        views(r@).to_set() == candidates(table_view(symbols@), name).filter(
            |t: Seq<char>| criterion.accepts(table_view(symbols@)[t]),
        ),
{
    let r = select(targets, criterion, symbols);
    proof {
        let table = table_view(symbols@);
        lemma_filter_to_set(views(targets@), |t: Seq<char>| is_accepted(table, criterion, t));
        assert(views(r@).to_set() =~= candidates(table, name).filter(
            |t: Seq<char>| criterion.accepts(table[t]),
        ));
    }
    r
}

/// The full names that end in the component `name`.
fn find_candidates(name: &str, index: &NameMap<Vec<String>>) -> (r: Vec<String>)
    ensures
        views(r@) == views(listed(index@, name@)),
{
    match index.get(name) {
        Some(targets) => {
            let r = targets.clone();
            assert(views(r@) =~= views(targets@));
            r
        },
        None => {
            let r: Vec<String> = Vec::new();
            assert(views(r@) =~= views(listed(index@, name@)));
            r
        },
    }
}

/// `first` where it has elements, `second` where it has none.
fn first_non_empty(first: Vec<String>, second: Vec<String>) -> (r: Vec<String>)
    ensures
        views(r@).to_set() == prefer(views(first@).to_set(), views(second@).to_set()),
{
    if first.is_empty() {
        assert(views(first@).to_set() =~= Set::empty());
        second
    } else {
        proof {
            let all = views(first@);
            assert(all.to_set().contains(all[0]));
        }
        first
    }
}

/// Whether a qualifier, such as the `my_task` of `my_task.delay()`, is itself a known top-level
/// function: the functions that it may be, in the order in which `index` lists them.
fn resolve_qualifier_as_function(
    qual: &str,
    index: &NameMap<Vec<String>>,
    symbols: &NameMap<Symbol>,
) -> (r: Vec<String>)
    ensures
        views(r@) == views(listed(index@, qual@)).filter(
            |t: Seq<char>|
                table_view(symbols@).contains_key(t) && is_top_level(table_view(symbols@)[t]),
        ),
{
    let targets = find_candidates(qual, index);
    let r = select(&targets, &Criterion::TopLevel, symbols);
    proof {
        let table = table_view(symbols@);
        assert((|t: Seq<char>| is_accepted(table, &Criterion::TopLevel, t)) =~= (|t: Seq<char>|
            table.contains_key(t) && is_top_level(table[t])));
    }
    r
}

/// The method `name` of the class around `qualname`, in `module`, or of a function on the way to it.
fn find_own_methods(
    targets: &Vec<String>,
    module: &str,
    qualname: &str,
    name: &str,
    symbols: &NameMap<Symbol>,
) -> (r: Vec<String>)
    requires
        views(targets@).to_set() == candidates(table_view(symbols@), name@),
    ensures
        views(r@).to_set() == own_methods(table_view(symbols@), module@, qualname@, name@),
    decreases qualname@.len(),
{
    proof {
        lemma_last_dot(qualname@);
    }
    let (outer, _) = split_last_dot(qualname);
    match outer {
        Some(outer) => {
            let wanted = join_dotted(outer.as_str(), name);
            let here = select_candidates(
                targets,
                &Criterion::Exactly(module, wanted.as_str()),
                symbols,
                Ghost(name@),
            );
            assert(views(here@).to_set() =~= exactly(
                table_view(symbols@),
                name@,
                module@,
                wanted@,
            ));
            if here.is_empty() {
                assert(views(here@).to_set() =~= Set::empty());
                if symbols.contains_key(join_dotted(module, outer.as_str()).as_str()) {
                    find_own_methods(targets, module, outer.as_str(), name, symbols)
                } else {
                    here
                }
            } else {
                proof {
                    lemma_not_empty(views(here@));
                }
                here
            }
        },
        None => {
            let r: Vec<String> = Vec::new();
            assert(views(r@).to_set() =~= Set::empty());
            r
        },
    }
}

proof fn lemma_not_empty(names: Seq<Seq<char>>)
    requires
        names.len() > 0,
    ensures
        names.to_set() != Set::<Seq<char>>::empty(),
{
    assert(names.to_set().contains(names[0]));
}

/// The methods `name` of the classes that are called like the one around `qualname`, in `module`,
/// or like a function on the way to it.
fn find_namesake_methods(
    targets: &Vec<String>,
    module: &str,
    qualname: &str,
    name: &str,
    symbols: &NameMap<Symbol>,
) -> (r: Vec<String>)
    requires
        views(targets@).to_set() == candidates(table_view(symbols@), name@),
    ensures
        views(r@).to_set() == namesake_methods(table_view(symbols@), module@, qualname@, name@),
    decreases qualname@.len(),
{
    proof {
        lemma_last_dot(qualname@);
    }
    let (outer, _) = split_last_dot(qualname);
    match outer {
        Some(outer) => {
            let (_, class) = split_last_dot(outer.as_str());
            let end = join_dotted(class.as_str(), name);
            let here = select_candidates(
                targets,
                &Criterion::EndsIn(end.as_str()),
                symbols,
                Ghost(name@),
            );
            assert(views(here@).to_set() =~= in_class(table_view(symbols@), name@, class@));
            if here.is_empty() {
                assert(views(here@).to_set() =~= Set::empty());
                if symbols.contains_key(join_dotted(module, outer.as_str()).as_str()) {
                    find_namesake_methods(targets, module, outer.as_str(), name, symbols)
                } else {
                    here
                }
            } else {
                proof {
                    lemma_not_empty(views(here@));
                }
                here
            }
        },
        None => {
            let r: Vec<String> = Vec::new();
            assert(views(r@).to_set() =~= Set::empty());
            r
        },
    }
}

/// The symbols that a call to `callee` may reach, from the function `caller` of `module`.
fn resolve(
    module: &str,
    caller: &str,
    callee: &str,
    index: &NameMap<Vec<String>>,
    symbols: &NameMap<Symbol>,
) -> (r: Vec<String>)
    requires
        indexes(index@, table_view(symbols@)),
    ensures
        views(r@).to_set() == resolution(table_view(symbols@), module@, caller@, callee@),
{
    let ghost table = table_view(symbols@);
    let (owner, name) = split_last_dot(callee);
    let targets = find_candidates(name.as_str(), index);
    assert(views(targets@).to_set() == candidates(table, name@));
    match owner {
        None => {
            let local = select_candidates(
                &targets,
                &Criterion::InModule(module),
                symbols,
                Ghost(name@),
            );
            assert(views(local@).to_set() =~= in_module(table, name@, module@));
            first_non_empty(local, targets)
        },
        Some(owner) => {
            if same(owner.as_str(), "self") || same(owner.as_str(), "cls") {
                let own = find_own_methods(&targets, module, caller, name.as_str(), symbols);
                let namesakes = find_namesake_methods(
                    &targets,
                    module,
                    caller,
                    name.as_str(),
                    symbols,
                );
                first_non_empty(own, first_non_empty(namesakes, targets))
            } else {
                let end = join_dotted(owner.as_str(), name.as_str());
                let methods = select_candidates(
                    &targets,
                    &Criterion::EndsIn(end.as_str()),
                    symbols,
                    Ghost(name@),
                );
                assert(views(methods@).to_set() =~= in_class(table, name@, owner@));
                let functions = resolve_qualifier_as_function(owner.as_str(), index, symbols);
                proof {
                    let listing = views(listed(index@, owner@));
                    let keep = |t: Seq<char>| table.contains_key(t) && is_top_level(table[t]);
                    lemma_filter_to_set(listing, keep);
                    assert(listing.to_set() == candidates(table, owner@));
                    assert(listing.to_set().filter(keep) =~= top_level(table, owner@));
                }
                first_non_empty(methods, functions)
            }
        },
    }
}

/// The call graph of a repository, by full name.
pub struct CallGraph {
    /// Who calls a symbol.
    pub callers: NameMap<NameSet>,
    /// Whom a symbol calls.
    pub callees: NameMap<NameSet>,
    /// What is known of a symbol.
    pub symbols: NameMap<Symbol>,
}

impl Default for CallGraph {
    /// The graph of no files.
    fn default() -> (r: CallGraph)
        ensures
            r.is_graph_of(Seq::empty()),
    {
        Self::build(&[])
    }
}

/// No name maps to an empty set.
pub open spec fn no_empty_sets(map: Map<Seq<char>, NameSet>) -> bool {
    forall|k: Seq<char>| #[trigger]
        map.contains_key(k) <==> exists|m: Seq<char>| #[trigger] members(map, k).contains(m)
}

impl CallGraph {
    /// What is known of each symbol.
    pub open spec fn table(&self) -> Map<Seq<char>, SymbolView> {
        table_view(self.symbols@)
    }

    /// The graph is that of `files`: it knows the symbols that they define, and its two maps
    /// hold their calls, in one direction and in the other, and nothing else.
    pub open spec fn is_graph_of(&self, files: Seq<FileView>) -> bool {
        &&& self.table() == symbol_table(all_defined(files))
        &&& forall|c: Seq<char>, t: Seq<char>| #[trigger]
            members(self.callers@, t).contains(c) <==> calls(files, c, t)
        &&& forall|c: Seq<char>, t: Seq<char>| #[trigger]
            members(self.callees@, c).contains(t) <==> calls(files, c, t)
        &&& no_empty_sets(self.callers@)
        &&& no_empty_sets(self.callees@)
    }
}

/// Some call before number `i` of file number `f` leads from `caller` to `target`.
spec fn calls_before(
    files: Seq<FileView>,
    f: int,
    i: int,
    caller: Seq<char>,
    target: Seq<char>,
) -> bool {
    exists|g: int, j: int|
        (g < f || (g == f && j < i)) && #[trigger] call_edge(files, g, j, caller, target)
}

/// `callers` and `callees` hold the calls before number `i` of file number `f`, and from
/// `caller` to each of `more`.
spec fn holds_calls(
    callers: Map<Seq<char>, NameSet>,
    callees: Map<Seq<char>, NameSet>,
    files: Seq<FileView>,
    f: int,
    i: int,
    caller: Seq<char>,
    more: Set<Seq<char>>,
) -> bool {
    &&& forall|c: Seq<char>, t: Seq<char>| #[trigger]
        members(callers, t).contains(c) <==> (calls_before(files, f, i, c, t) || (c == caller
            && more.contains(t)))
    &&& forall|c: Seq<char>, t: Seq<char>| #[trigger]
        members(callees, c).contains(t) <==> (calls_before(files, f, i, c, t) || (c == caller
            && more.contains(t)))
    &&& no_empty_sets(callers)
    &&& no_empty_sets(callees)
}

/// Adding a member leaves no empty set behind.
proof fn lemma_add_member_not_empty(
    before: Map<Seq<char>, NameSet>,
    after: Map<Seq<char>, NameSet>,
    name: Seq<char>,
    member: Seq<char>,
)
    requires
        no_empty_sets(before),
        after.dom() == before.dom().insert(name),
        forall|k: Seq<char>| #[trigger]
            members(after, k) == if k == name {
                members(before, k).insert(member)
            } else {
                members(before, k)
            },
    ensures
        no_empty_sets(after),
{
    assert forall|k: Seq<char>| #[trigger] after.contains_key(k) <==> exists|m: Seq<char>| #[trigger]
        members(after, k).contains(m) by {
        if k == name {
            assert(members(after, k).contains(member));
        } else {
            assert(members(after, k) == members(before, k));
            assert(before.contains_key(k) <==> exists|m: Seq<char>| #[trigger] members(before, k).contains(m));
        }
    }
}

/// Call number `i` of file number `f` counts as one of those before number `i + 1`.
proof fn lemma_next_call(
    callers: Map<Seq<char>, NameSet>,
    callees: Map<Seq<char>, NameSet>,
    files: Seq<FileView>,
    f: int,
    i: int,
    caller: Seq<char>,
    more: Set<Seq<char>>,
)
    requires
        holds_calls(callers, callees, files, f, i, caller, more),
        forall|c: Seq<char>, t: Seq<char>| #[trigger]
            call_edge(files, f, i, c, t) <==> (c == caller && more.contains(t)),
    ensures
        holds_calls(callers, callees, files, f, i + 1, Seq::empty(), Set::empty()),
{
    assert forall|c: Seq<char>, t: Seq<char>| #[trigger]
        calls_before(files, f, i + 1, c, t) <==> (calls_before(files, f, i, c, t) || (c == caller
            && more.contains(t))) by {
        if calls_before(files, f, i + 1, c, t) {
            let (g, j) = choose|g: int, j: int|
                (g < f || (g == f && j < i + 1)) && #[trigger] call_edge(files, g, j, c, t);
            assert(g == f && j == i || (g < f || (g == f && j < i)));
        }
        if c == caller && more.contains(t) {
            assert(call_edge(files, f, i, c, t));
        }
    }
}

impl CallGraph {
    /// The call graph of the files that were parsed.
    pub fn build(all_files: &[FileSymbols]) -> (r: CallGraph)
        ensures
            r.is_graph_of(file_views(all_files@)),
    {
        let (symbols, index) = register(all_files);
        let mut callers: NameMap<NameSet> = NameMap::new();
        let mut callees: NameMap<NameSet> = NameMap::new();
        let ghost fv = file_views(all_files@);
        let ghost table = symbol_table(all_defined(fv));
        let mut f: usize = 0;
        while f < all_files.len()
            invariant
                f <= all_files@.len(),
                fv == file_views(all_files@),
                table == symbol_table(all_defined(fv)),
                table == table_view(symbols@),
                indexes(index@, table),
                holds_calls(callers@, callees@, fv, f as int, 0, Seq::empty(), Set::empty()),
            decreases all_files@.len() - f,
        {
            let file = &all_files[f];
            let ghost view = fv[f as int];
            if file.defined.len() > 0 {
                let module = file.defined[0].module.as_str();
                let mut i: usize = 0;
                while i < file.calls.len()
                    invariant
                        f < fv.len(),
                        i <= file.calls@.len(),
                        view == fv[f as int],
                        view == file@,
                        view.defined.len() > 0,
                        module@ == view.defined[0].module,
                        table == symbol_table(all_defined(fv)),
                        table == table_view(symbols@),
                        indexes(index@, table),
                        holds_calls(
                            callers@,
                            callees@,
                            fv,
                            f as int,
                            i as int,
                            Seq::empty(),
                            Set::empty(),
                        ),
                    decreases file.calls@.len() - i,
                {
                    let caller = file.calls[i].0.as_str();
                    let callee = file.calls[i].1.as_str();
                    let caller_full = join_dotted(module, caller);
                    let ghost reached = resolution(table, module@, caller@, callee@);
                    assert(view.calls[i as int] == (caller@, callee@));
                    if symbols.contains_key(caller_full.as_str()) {
                        let resolved = resolve(module, caller, callee, &index, &symbols);
                        let ghost targets = views(resolved@);
                        let mut k: usize = 0;
                        assert(targets.take(0).to_set() =~= Set::empty());
                        while k < resolved.len()
                            invariant
                                k <= resolved@.len(),
                                targets == views(resolved@),
                                holds_calls(
                                    callers@,
                                    callees@,
                                    fv,
                                    f as int,
                                    i as int,
                                    caller_full@,
                                    targets.take(k as int).to_set(),
                                ),
                            decreases resolved@.len() - k,
                        {
                            let target = resolved[k].as_str();
                            let ghost callers_before = callers@;
                            let ghost callees_before = callees@;
                            callers.add_member(target, caller_full.as_str());
                            callees.add_member(caller_full.as_str(), target);
                            proof {
                                assert(targets.take(k + 1) =~= targets.take(k as int).push(target@));
                                lemma_push_to_set(targets.take(k as int), target@);
                                lemma_add_member_not_empty(
                                    callers_before,
                                    callers@,
                                    target@,
                                    caller_full@,
                                );
                                lemma_add_member_not_empty(
                                    callees_before,
                                    callees@,
                                    caller_full@,
                                    target@,
                                );
                            }
                            k += 1;
                        }
                        assert(targets.take(k as int) =~= targets);
                        assert(targets.to_set() == reached);
                        proof {
                            lemma_next_call(
                                callers@,
                                callees@,
                                fv,
                                f as int,
                                i as int,
                                caller_full@,
                                reached,
                            );
                        }
                    } else {
                        proof {
                            lemma_next_call(
                                callers@,
                                callees@,
                                fv,
                                f as int,
                                i as int,
                                Seq::empty(),
                                Set::empty(),
                            );
                        }
                    }
                    i += 1;
                }
            }
            proof {
                assert forall|c: Seq<char>, t: Seq<char>|
                    calls_before(fv, f + 1, 0, c, t) <==> calls_before(
                        fv,
                        f as int,
                        view.calls.len() as int,
                        c,
                        t,
                    ) by {}
                assert(file.calls@.len() == view.calls.len());
                if view.defined.len() == 0 {
                    assert forall|c: Seq<char>, t: Seq<char>|
                        calls_before(fv, f + 1, 0, c, t) <==> calls_before(fv, f as int, 0, c, t) by {}
                }
            }
            f += 1;
        }
        proof {
            assert forall|c: Seq<char>, t: Seq<char>|
                calls_before(fv, f as int, 0, c, t) <==> calls(fv, c, t) by {
                if calls(fv, c, t) {
                    let (g, j) = choose|g: int, j: int| call_edge(fv, g, j, c, t);
                    assert(g < f);
                }
            }
        }
        CallGraph { callers, callees, symbols }
    }
}

/// Some pattern stands in `file`.
pub open spec fn matches_any(file: Seq<char>, patterns: Seq<Seq<char>>) -> bool {
    exists|i: int| 0 <= i < patterns.len() && has_infix(file, #[trigger] patterns[i])
}

/// Whether some pattern of `exclude` stands in `file`.
pub fn is_excluded(file: &str, exclude: &[String]) -> (r: bool)
    ensures
        r == matches_any(file@, views(exclude@)),
{
    let mut i: usize = 0;
    while i < exclude.len()
        invariant
            i <= exclude@.len(),
            forall|k: int| 0 <= k < i ==> !has_infix(file@, #[trigger] views(exclude@)[k]),
        decreases exclude@.len() - i,
    {
        if contains(file, exclude[i].as_str()) {
            assert(has_infix(file@, views(exclude@)[i as int]));
            return true;
        }
        i += 1;
    }
    false
}

/// The names and depths of `radius`.
pub open spec fn radius_view(radius: Seq<(String, usize)>) -> Seq<(Seq<char>, nat)> {
    radius.map_values(|e: (String, usize)| (e.0@, e.1 as nat))
}

impl CallGraph {
    /// `name` is `d` steps away from `sym`, up the callers.
    pub open spec fn distance(&self, sym: Seq<char>, name: Seq<char>, d: nat) -> bool {
        distance_is(self.callers@, sym, name, d)
    }

    /// The names that a change of `sym` affects: its transitive callers.
    pub open spec fn affected(&self, sym: Seq<char>) -> Set<Seq<char>> {
        Set::new(
            |name: Seq<char>|
                exists|d: nat| d >= 1 && #[trigger] self.distance(sym, name, d),
        )
    }

    /// `radius` lists each name that is one step or more away from `sym`, once, with its
    /// distance, and nothing else; what is nearer comes first.
    pub open spec fn is_radius(&self, sym: Seq<char>, radius: Seq<(Seq<char>, nat)>) -> bool {
        &&& forall|i: int|
            0 <= i < radius.len() ==> (#[trigger] radius[i]).1 >= 1 && self.distance(
                sym,
                radius[i].0,
                radius[i].1,
            )
        &&& forall|name: Seq<char>, d: nat|
            d >= 1 && #[trigger] self.distance(sym, name, d) ==> radius.contains(
                (name, d),
            )
        &&& forall|i: int, j: int|
            0 <= i < j < radius.len() ==> (#[trigger] radius[i]).0 != (#[trigger] radius[j]).0
        &&& forall|i: int, j: int|
            0 <= i < j < radius.len() ==> (#[trigger] radius[i]).1 <= (#[trigger] radius[j]).1
    }

    /// A radius lists what is affected, each name once.
    pub proof fn lemma_radius_lists_affected(
        &self,
        sym: Seq<char>,
        radius: Seq<(Seq<char>, nat)>,
        names: Seq<Seq<char>>,
    )
        requires
            self.is_radius(sym, radius),
            names == radius.map_values(|e: (Seq<char>, nat)| e.0),
        ensures
            names.no_duplicates(),
            names.to_set() == self.affected(sym),
            self.affected(sym).finite(),
    {
        assert forall|name: Seq<char>| self.affected(sym).contains(name) <==> names.contains(
            name,
        ) by {
            if self.affected(sym).contains(name) {
                let d = choose|d: nat|
                    d >= 1 && #[trigger] self.distance(sym, name, d);
                let i = choose|i: int| 0 <= i < radius.len() && radius[i] == (name, d);
                assert(names[i] == name);
            }
            if names.contains(name) {
                let i = choose|i: int| 0 <= i < names.len() && names[i] == name;
                assert(self.distance(sym, radius[i].0, radius[i].1));
            }
        }
        assert(names.to_set() =~= self.affected(sym));
        vstd::seq_lib::seq_to_set_is_finite(names);
    }

    /// All transitive callers of `sym`, with their distance.
    pub fn blast_radius(&self, sym: &str) -> (r: Vec<(String, usize)>)
        ensures
            self.is_radius(sym@, radius_view(r@)),
    {
        let (mut order, mut seen) = start_search(sym);
        let mut head: usize = 0;
        assert(is_search(self.callers@, sym@, order@, seen@, 0, 0));
        while head < order.len()
            invariant
                is_search(self.callers@, sym@, order@, seen@, head as int, head as int),
            decreases usize::MAX - head,
        {
            expand(&self.callers, &mut order, &mut seen, head, Ghost(sym@));
            head += 1;
        }
        let mut r: Vec<(String, usize)> = Vec::new();
        let mut i: usize = 1;
        while i < order.len()
            invariant
                1 <= i <= order@.len(),
                r@.len() == i - 1,
                forall|k: int|
                    0 <= k < r@.len() ==> (#[trigger] r@[k]).0@ == order@[k + 1].name@ && r@[k].1
                        == order@[k + 1].depth,
            decreases order@.len() - i,
        {
            r.push((order[i].name.clone(), order[i].depth));
            i += 1;
        }
        proof {
            let radius = radius_view(r@);
            assert forall|k: int| 0 <= k < radius.len() implies (#[trigger] radius[k]).1 >= 1
                && self.distance(sym@, radius[k].0, radius[k].1) by {
                assert(r@[k].1 == order@[k + 1].depth);
                assert(parent_fits(self.callers@, order@, k + 1, head as int));
                lemma_depth_is_distance(
                    self.callers@,
                    sym@,
                    order@,
                    seen@,
                    head as int,
                    k + 1,
                );
            }
            assert forall|name: Seq<char>, d: nat|
                d >= 1 && #[trigger] self.distance(
                    sym@,
                    name,
                    d,
                ) implies radius.contains((name, d)) by {
                let j = lemma_distance_is_depth(
                    self.callers@,
                    sym@,
                    order@,
                    seen@,
                    head as int,
                    name,
                    d,
                );
                assert(r@[j - 1].0@ == order@[j].name@);
                assert(radius[j - 1] == (name, d));
            }
            assert forall|i: int, j: int| 0 <= i < j < radius.len() implies (#[trigger] radius[i]).0
                != (#[trigger] radius[j]).0 by {
                assert(r@[i].0@ == order@[i + 1].name@);
                assert(r@[j].0@ == order@[j + 1].name@);
            }
            assert forall|i: int, j: int| 0 <= i < j < radius.len() implies (#[trigger] radius[i]).1
                <= (#[trigger] radius[j]).1 by {
                assert(r@[i].1 == order@[i + 1].depth);
                assert(r@[j].1 == order@[j + 1].depth);
            }
        }
        r
    }

    /// `chain` is a shortest chain of callers from `sym` up to `target`, both named; it is empty
    /// where no chain of callers leads there.
    pub open spec fn is_shortest_chain(
        &self,
        sym: Seq<char>,
        target: Seq<char>,
        chain: Seq<Seq<char>>,
    ) -> bool {
        &&& chain.len() == 0 <==> forall|d: nat| !#[trigger] leads(self.callers@, sym, target, d)
        &&& chain.len() > 0 ==> is_chain_between(self.callers@, sym, target, chain)
            && self.distance(sym, target, (chain.len() - 1) as nat)
    }

    /// A shortest chain of callers from `sym` up to `target`, both named; empty where no chain
    /// of callers leads there.
    pub fn call_chain(&self, sym: &str, target: &str) -> (r: Vec<String>)
        ensures
            self.is_shortest_chain(sym@, target@, views(r@)),
    {
        let (mut order, mut seen) = start_search(sym);
        let mut head: usize = 0;
        assert(is_search(self.callers@, sym@, order@, seen@, 0, 0));
        while head < order.len()
            invariant
                is_search(self.callers@, sym@, order@, seen@, head as int, head as int),
                forall|i: int| 0 <= i < head ==> (#[trigger] order@[i]).name@ != target@,
            decreases usize::MAX - head,
        {
            if same(order[head].name.as_str(), target) {
                proof {
                    lemma_depth_is_distance(
                        self.callers@,
                        sym@,
                        order@,
                        seen@,
                        head as int,
                        head as int,
                    );
                    assert(leads(
                        self.callers@,
                        sym@,
                        target@,
                        order@[head as int].depth as nat,
                    ));
                }
                return trace_back(
                    &self.callers,
                    &order,
                    head,
                    Ghost(sym@),
                    Ghost(seen@),
                    Ghost(head as int),
                );
            }
            let ghost before = order@;
            expand(&self.callers, &mut order, &mut seen, head, Ghost(sym@));
            assert forall|i: int| 0 <= i <= head implies (#[trigger] order@[i]).name@ != target@ by {
                assert(order@[i] == before[i]);
            }
            head += 1;
        }
        proof {
            assert forall|d: nat| !#[trigger] leads(self.callers@, sym@, target@, d) by {
                if leads(self.callers@, sym@, target@, d) {
                    let i = lemma_finished_search(
                        self.callers@,
                        sym@,
                        order@,
                        seen@,
                        target@,
                        d,
                    );
                    assert(order@[i].name@ != target@);
                }
            }
        }
        Vec::new()
    }
}

impl CallGraph {
    /// `name` is a symbol in a file whose path holds some pattern of `exclude`.
    pub open spec fn excludes(&self, name: Seq<char>, exclude: Seq<Seq<char>>) -> bool {
        self.table().contains_key(name) && matches_any(self.table()[name].file, exclude)
    }

    /// The direct callers of `sym` that count: those in no excluded file.
    pub open spec fn counted_callers(&self, sym: Seq<char>, exclude: Seq<Seq<char>>) -> Set<
        Seq<char>,
    > {
        members(self.callers@, sym).filter(|c: Seq<char>| !self.excludes(c, exclude))
    }

    /// Whether `name` is a symbol in a file whose path holds some pattern of `exclude`.
    pub fn is_caller_excluded(&self, name: &str, exclude: &[String]) -> (r: bool)
        ensures
            r == self.excludes(name@, views(exclude@)),
    {
        match self.symbols.get(name) {
            Some(symbol) => {
                assert(self.table()[name@] == symbol@);
                is_excluded(symbol.file.as_str(), exclude)
            },
            None => false,
        }
    }

    /// The number of direct callers of `sym`.
    pub fn direct_callers(&self, sym: &str) -> (r: usize)
        ensures
            r == members(self.callers@, sym@).len(),
            members(self.callers@, sym@).finite(),
    {
        match self.callers.get(sym) {
            Some(set) => set.len(),
            None => 0,
        }
    }

    /// The number of direct callers of `sym` that stand in no excluded file.
    pub fn direct_callers_filtered(&self, sym: &str, exclude: &[String]) -> (r: usize)
        ensures
            r == self.counted_callers(sym@, views(exclude@)).len(),
            self.counted_callers(sym@, views(exclude@)).finite(),
    {
        let ghost all = members(self.callers@, sym@);
        let ghost keep = |c: Seq<char>| !self.excludes(c, views(exclude@));
        if exclude.is_empty() {
            assert(self.counted_callers(sym@, views(exclude@)) =~= all);
            return self.direct_callers(sym);
        }
        match self.callers.get(sym) {
            Some(set) => {
                let total: usize = set.len();
                let ghost order = set.order();
                let mut count: usize = 0;
                let mut i: usize = 0;
                assert(order.take(0).to_set().filter(keep) =~= Set::empty());
                while i < total
                    invariant
                        count <= i <= total == order.len(),
                        order == set.order(),
                        order.no_duplicates(),
                        keep == (|c: Seq<char>| !self.excludes(c, views(exclude@))),
                        order.take(i as int).to_set().filter(keep).finite(),
                        count == order.take(i as int).to_set().filter(keep).len(),
                    decreases total - i,
                {
                    let caller = set.get(i);
                    proof {
                        lemma_next_kept(order, i as int, keep);
                    }
                    if !self.is_caller_excluded(caller, exclude) {
                        count += 1;
                    }
                    i += 1;
                }
                assert(order.take(i as int) =~= order);
                assert(self.counted_callers(sym@, views(exclude@)) =~= order.to_set().filter(keep));
                count
            },
            None => {
                assert(self.counted_callers(sym@, views(exclude@)) =~= Set::empty());
                0
            },
        }
    }

    /// The number of counted direct callers of each symbol, in the order in which the graph
    /// lists its symbols.
    pub open spec fn counts(&self, exclude: Seq<Seq<char>>) -> Seq<usize> {
        self.symbols.order().map_values(
            |name: Seq<char>| self.counted_callers(name, exclude).len() as usize,
        )
    }

    /// How the numbers of direct callers are distributed over all symbols.
    pub fn compute_baseline(&self, exclude: &[String]) -> (r: RepoBaseline)
        ensures
            r.is_ordered(),
            r.sorted_counts@.to_multiset() == self.counts(views(exclude@)).to_multiset(),
    {
        let total: usize = self.symbols.len();
        let mut counts: Vec<usize> = Vec::new();
        let mut i: usize = 0;
        let ghost expected = self.counts(views(exclude@));
        while i < total
            invariant
                i <= total == self.symbols.order().len(),
                expected == self.counts(views(exclude@)),
                counts@ == expected.take(i as int),
            decreases total - i,
        {
            counts.push(self.direct_callers_filtered(self.symbols.key(i), exclude));
            i += 1;
            assert(counts@ =~= expected.take(i as int));
        }
        assert(counts@ =~= expected);
        RepoBaseline { sorted_counts: ascending(&counts) }
    }
}

/// The numbers of direct callers of all symbols, in ascending order.
#[derive(Debug)]
pub struct RepoBaseline {
    pub sorted_counts: Vec<usize>,
}

impl RepoBaseline {
    pub open spec fn is_ordered(&self) -> bool {
        is_ascending(self.sorted_counts@)
    }

    /// The fraction of symbols that have at most `count` direct callers.
    pub open spec fn percentile(&self, count: usize) -> Binary64 {
        if self.sorted_counts@.len() == 0 {
            zero()
        } else {
            quotient(count_up_to(self.sorted_counts@, count), self.sorted_counts@.len())
        }
    }

    /// The fraction of symbols that have at most `count` direct callers, from 0 to 1.
    pub fn percentile_of(&self, count: usize) -> (r: Binary64)
        requires
            self.is_ordered(),
        ensures
            r == self.percentile(count),
            r.is_within(400),
            r.units() <= one(),
            r.units() == 0 || r.units() >= LEAST_MANTISSA,
    {
        if self.sorted_counts.is_empty() {
            proof {
                self.lemma_percentile_is_fraction(count);
            }
            return Binary64::nothing();
        }
        let size: usize = self.sorted_counts.len();
        let pos = rank(&self.sorted_counts, count);
        proof {
            self.lemma_percentile_is_fraction(count);
        }
        Binary64::ratio(pos, size)
    }

    /// A percentile lies between 0 and 1.
    pub proof fn lemma_percentile_is_fraction(&self, count: usize)
        requires
            self.sorted_counts@.len() <= u64::MAX,
        ensures
            self.percentile(count).units() <= one(),
            self.percentile(count).units() == 0 || self.percentile(count).units()
                >= LEAST_MANTISSA,
    {
        lemma_count_up_to(self.sorted_counts@, count);
        if self.sorted_counts@.len() > 0 {
            let n = count_up_to(self.sorted_counts@, count);
            lemma_quotient(n, n, self.sorted_counts@.len());
        } else {
            assert(0 * ulp(0) == 0) by (nonlinear_arith);
        }
    }

    /// More direct callers never mean a lower percentile.
    pub proof fn lemma_percentile_keeps_order(&self, less: usize, more: usize)
        requires
            less <= more,
            self.sorted_counts@.len() <= u64::MAX,
        ensures
            self.percentile(less).units() <= self.percentile(more).units(),
    {
        lemma_count_up_to(self.sorted_counts@, more);
        lemma_count_up_to_keeps_order(self.sorted_counts@, less, more);
        if self.sorted_counts@.len() > 0 {
            lemma_quotient(
                count_up_to(self.sorted_counts@, less),
                count_up_to(self.sorted_counts@, more),
                self.sorted_counts@.len(),
            );
        }
    }

    /// A symbol that no other one has more direct callers than stands at 1.
    pub proof fn lemma_top_percentile(&self, count: usize)
        requires
            0 < self.sorted_counts@.len() <= u64::MAX,
            forall|i: int|
                0 <= i < self.sorted_counts@.len() ==> #[trigger] self.sorted_counts@[i] <= count,
        ensures
            self.percentile(count).units() == one(),
    {
        lemma_count_split(self.sorted_counts@, count, self.sorted_counts@.len() as int);
        lemma_quotient(0, 0, self.sorted_counts@.len());
    }

    /// Where the value at `pct` percent stands.
    pub open spec fn place_of(&self, pct: usize) -> nat {
        let place = quotient(pct as nat, 100).times(of_int(self.sorted_counts@.len())).whole();
        if place < self.sorted_counts@.len() {
            place
        } else {
            (self.sorted_counts@.len() - 1) as nat
        }
    }

    /// The value at `pct` percent, from 0 to 100; 0 where there are no values.
    pub fn p(&self, pct: usize) -> (r: usize)
        ensures
            r == if self.sorted_counts@.len() == 0 {
                0
            } else {
                self.sorted_counts@[self.place_of(pct) as int]
            },
    {
        if self.sorted_counts.is_empty() {
            return 0;
        }
        let size: usize = self.sorted_counts.len();
        let share = Binary64::ratio(pct, 100);
        let idx = share.multiply(Binary64::from_usize(size)).truncate();
        if idx < size {
            self.sorted_counts[idx]
        } else {
            self.sorted_counts[size - 1]
        }
    }
}

} // verus!
