//! Which symbols a diff touches.
use crate::callgraph::{is_excluded, matches_any};
use crate::names::{listed, NameMap};
use crate::parser::{is_outcome, outcome, parse_file, symbol_views, FileView, Symbol, SymbolView};
use crate::syntax::ParseError;
use crate::text::{ends_with, views};
use vstd::prelude::*;
use vstd::string::*;

verus! {

/// A run of lines of a file that a diff changes, as they are after the change. A run of no lines
/// stands for a deletion at its start.
#[derive(Debug)]
pub struct Hunk {
    pub path: String,
    pub new_start: u32,
    pub new_lines: u32,
}

/// What a [`Hunk`] says.
pub struct HunkView {
    pub path: Seq<char>,
    pub new_start: nat,
    pub new_lines: nat,
}

impl View for Hunk {
    type V = HunkView;

    open spec fn view(&self) -> HunkView {
        HunkView {
            path: self.path@,
            new_start: self.new_start as nat,
            new_lines: self.new_lines as nat,
        }
    }
}

pub open spec fn hunk_views(hunks: Seq<Hunk>) -> Seq<HunkView> {
    hunks.map_values(|h: Hunk| h@)
}

/// The end of the range that stands for all lines of a new file.
pub const WHOLE_FILE: u64 = 999999;

/// The file at `path` holds Python.
pub open spec fn is_python(path: Seq<char>) -> bool {
    ".py"@.is_suffix_of(path)
}

/// The first and the last line of a hunk.
pub open spec fn hunk_range(hunk: HunkView) -> (u64, u64) {
    (
        hunk.new_start as u64,
        if hunk.new_lines == 0 {
            hunk.new_start as u64
        } else {
            (hunk.new_start + hunk.new_lines - 1) as u64
        },
    )
}

/// The ranges of those hunks that change `path`, in order.
pub open spec fn hunk_ranges(hunks: Seq<HunkView>, path: Seq<char>) -> Seq<(u64, u64)>
    decreases hunks.len(),
{
    if hunks.len() == 0 {
        Seq::empty()
    } else {
        let before = hunk_ranges(hunks.drop_last(), path);
        if is_python(path) && hunks.last().path == path {
            before.push(hunk_range(hunks.last()))
        } else {
            before
        }
    }
}

/// The lines of `path` that changed: those of its hunks; all lines of a new file without hunks.
pub open spec fn changed_lines(
    hunks: Seq<HunkView>,
    added: Seq<Seq<char>>,
    path: Seq<char>,
) -> Seq<(u64, u64)> {
    let ranges = hunk_ranges(hunks, path);
    if ranges.len() == 0 && is_python(path) && added.contains(path) {
        seq![(1u64, WHOLE_FILE)]
    } else {
        ranges
    }
}

/// `files` lists the changed lines of each changed Python file, and no file without any.
pub open spec fn lists_changes(
    files: Map<Seq<char>, Vec<(u64, u64)>>,
    hunks: Seq<HunkView>,
    added: Seq<Seq<char>>,
) -> bool {
    forall|path: Seq<char>|
        #![trigger files.contains_key(path)]
        #![trigger listed(files, path)]
        {
            &&& listed(files, path) == changed_lines(hunks, added, path)
            &&& files.contains_key(path) <==> changed_lines(hunks, added, path).len() > 0
        }
}

/// The changed lines of each changed Python file: those of its hunks, or, for a file in `added`
/// that has none, all lines.
pub fn changed_files(hunks: &[Hunk], added: &[String]) -> (r: NameMap<Vec<(u64, u64)>>)
    ensures
        lists_changes(r@, hunk_views(hunks@), views(added@)),
{
    let ghost hv = hunk_views(hunks@);
    let ghost av = views(added@);
    let mut files: NameMap<Vec<(u64, u64)>> = NameMap::new();
    let mut i: usize = 0;
    assert(lists_changes(files@, hv.take(0), av.take(0)));
    while i < hunks.len()
        invariant
            i <= hunks@.len(),
            hv == hunk_views(hunks@),
            lists_changes(files@, hv.take(i as int), av.take(0)),
        decreases hunks@.len() - i,
    {
        let hunk = &hunks[i];
        let ghost before = files@;
        proof {
            assert(hv.take(i + 1).drop_last() =~= hv.take(i as int));
            assert(hv.take(i + 1).last() == hunk@);
        }
        if ends_with(hunk.path.as_str(), ".py") {
            let start = hunk.new_start as u64;
            let end = if hunk.new_lines == 0 {
                start
            } else {
                start + hunk.new_lines as u64 - 1
            };
            files.append_item(hunk.path.as_str(), (start, end));
        }
        proof {
            assert forall|path: Seq<char>|
                #![trigger files@.contains_key(path)]
                #![trigger listed(files@, path)]
                {
                    &&& listed(files@, path) == changed_lines(hv.take(i + 1), av.take(0), path)
                    &&& files@.contains_key(path) <==> changed_lines(
                        hv.take(i + 1),
                        av.take(0),
                        path,
                    ).len() > 0
                } by {
                assert(listed(before, path) == changed_lines(hv.take(i as int), av.take(0), path));
                assert(before.contains_key(path) <==> changed_lines(
                    hv.take(i as int),
                    av.take(0),
                    path,
                ).len() > 0);
                assert(listed(files@, path) == listed(files@, path));
            }
        }
        i += 1;
    }
    assert(hv.take(i as int) =~= hv);
    let mut k: usize = 0;
    while k < added.len()
        invariant
            k <= added@.len(),
            av == views(added@),
            lists_changes(files@, hv, av.take(k as int)),
        decreases added@.len() - k,
    {
        let path = added[k].as_str();
        let ghost before = files@;
        let ghost done = av.take(k as int);
        let ghost now = av.take(k + 1);
        proof {
            assert(now =~= done.push(path@));
            assert(now[k as int] == path@);
        }
        if ends_with(path, ".py") && !files.contains_key(path) {
            files.append_item(path, (1, WHOLE_FILE));
        }
        proof {
            assert forall|p: Seq<char>|
                #![trigger files@.contains_key(p)]
                #![trigger listed(files@, p)]
                {
                    &&& listed(files@, p) == changed_lines(hv, now, p)
                    &&& files@.contains_key(p) <==> changed_lines(hv, now, p).len() > 0
                } by {
                assert(listed(before, p) == changed_lines(hv, done, p));
                assert(before.contains_key(p) <==> changed_lines(hv, done, p).len() > 0);
                assert(now.contains(p) <==> (done.contains(p) || p == path@)) by {
                    if done.contains(p) {
                        let j = choose|j: int| 0 <= j < done.len() && done[j] == p;
                        assert(now[j] == p);
                    }
                }
                assert(listed(files@, p) =~= changed_lines(hv, now, p));
            }
        }
        k += 1;
    }
    assert(av.take(k as int) =~= av);
    files
}

/// The lines from `start` to `end` meet one of the ranges of `changed`.
pub open spec fn overlaps(changed: Seq<(u64, u64)>, start: nat, end: nat) -> bool {
    exists|i: int|
        0 <= i < changed.len() && start <= (#[trigger] changed[i]).1 && end >= changed[i].0
}

/// Whether the lines from `sym_start` to `sym_end` meet one of the ranges of `changed`.
pub fn ranges_overlap(changed: &[(u64, u64)], sym_start: usize, sym_end: usize) -> (r: bool)
    ensures
        r == overlaps(changed@, sym_start as nat, sym_end as nat),
{
    let mut i: usize = 0;
    while i < changed.len()
        invariant
            i <= changed@.len(),
            forall|k: int|
                0 <= k < i ==> !(sym_start <= (#[trigger] changed@[k]).1 && sym_end
                    >= changed@[k].0),
        decreases changed@.len() - i,
    {
        let (first, last) = changed[i];
        if sym_start as u64 <= last && sym_end as u64 >= first {
            return true;
        }
        i += 1;
    }
    false
}

/// The symbols of `defined` whose lines meet one of the ranges of `changed`, in order.
pub open spec fn touched(defined: Seq<SymbolView>, changed: Seq<(u64, u64)>) -> Seq<SymbolView> {
    defined.filter(|s: SymbolView| overlaps(changed, s.line, s.end_line))
}

/// The symbols of `defined` whose lines meet one of the ranges of `changed`, in order.
pub fn touched_symbols(defined: &[Symbol], changed: &[(u64, u64)]) -> (r: Vec<Symbol>)
    ensures
        symbol_views(r@) == touched(symbol_views(defined@), changed@),
{
    let ghost dv = symbol_views(defined@);
    let ghost keep = |s: SymbolView| overlaps(changed@, s.line, s.end_line);
    let mut r: Vec<Symbol> = Vec::new();
    let mut i: usize = 0;
    assert(symbol_views(r@) =~= dv.take(0).filter(keep));
    while i < defined.len()
        invariant
            i <= defined@.len(),
            dv == symbol_views(defined@),
            keep == (|s: SymbolView| overlaps(changed@, s.line, s.end_line)),
            symbol_views(r@) == dv.take(i as int).filter(keep),
        decreases defined@.len() - i,
    {
        let symbol = &defined[i];
        let ghost before = r@;
        proof {
            let now = dv.take(i + 1);
            assert(now.drop_last() =~= dv.take(i as int));
            assert(now.last() == symbol@);
            reveal(Seq::filter);
        }
        if ranges_overlap(changed, symbol.line, symbol.end_line) {
            r.push(symbol.clone());
            assert(symbol_views(r@) =~= symbol_views(before).push(symbol@));
        }
        i += 1;
    }
    assert(dv.take(i as int) =~= dv);
    r
}

/// A file and the text that it holds.
#[derive(Debug)]
pub struct SourceFile {
    pub path: String,
    pub source: String,
}

/// The symbols that changed, and the files that could not be parsed.
#[derive(Debug)]
pub struct Changes {
    pub symbols: Vec<Symbol>,
    pub failures: Vec<(String, ParseError)>,
}

/// `outcomes` come out of parsing the `files`, in the repository at `repo_root`.
pub open spec fn are_outcomes(
    outcomes: Seq<Result<FileView, ParseError>>,
    files: Seq<SourceFile>,
    repo_root: Seq<char>,
) -> bool {
    &&& outcomes.len() == files.len()
    &&& forall|i: int|
        0 <= i < outcomes.len() ==> is_outcome(
            #[trigger] outcomes[i],
            files[i].path@,
            repo_root,
            files[i].source@,
        )
}

/// The symbols of all files that could be parsed which the changed lines of their file touch, one
/// file after the other.
pub open spec fn all_touched(
    outcomes: Seq<Result<FileView, ParseError>>,
    files: Seq<SourceFile>,
    changed: Map<Seq<char>, Vec<(u64, u64)>>,
) -> Seq<SymbolView>
    decreases outcomes.len(),
{
    if outcomes.len() == 0 {
        Seq::empty()
    } else {
        let k = outcomes.len() - 1;
        let before = all_touched(outcomes.drop_last(), files, changed);
        match outcomes[k] {
            Ok(symbols) => before + touched(symbols.defined, listed(changed, files[k].path@)),
            Err(_) => before,
        }
    }
}

/// The files that could not be parsed, and why, in order.
pub open spec fn all_failures(
    outcomes: Seq<Result<FileView, ParseError>>,
    files: Seq<SourceFile>,
) -> Seq<(Seq<char>, ParseError)>
    decreases outcomes.len(),
{
    if outcomes.len() == 0 {
        Seq::empty()
    } else {
        let k = outcomes.len() - 1;
        let before = all_failures(outcomes.drop_last(), files);
        match outcomes[k] {
            Ok(_) => before,
            Err(e) => before.push((files[k].path@, e)),
        }
    }
}

/// The paths and reasons of `failures`.
pub open spec fn failure_views(failures: Seq<(String, ParseError)>) -> Seq<
    (Seq<char>, ParseError),
> {
    failures.map_values(|f: (String, ParseError)| (f.0@, f.1))
}

/// The symbols of the `files` that changed: those whose lines meet one of the ranges that
/// `changed` lists for their file. A file that cannot be parsed is named.
pub fn changed_symbols(
    files: &[SourceFile],
    changed: &NameMap<Vec<(u64, u64)>>,
    repo_root: &str,
) -> (r: Changes)
    ensures
        exists|outcomes: Seq<Result<FileView, ParseError>>| #[trigger]
            are_outcomes(outcomes, files@, repo_root@) && symbol_views(r.symbols@) == all_touched(
                outcomes,
                files@,
                changed@,
            ) && failure_views(r.failures@) == all_failures(outcomes, files@),
{
    let mut symbols: Vec<Symbol> = Vec::new();
    let mut failures: Vec<(String, ParseError)> = Vec::new();
    let none: Vec<(u64, u64)> = Vec::new();
    let ghost mut outcomes: Seq<Result<FileView, ParseError>> = Seq::empty();
    let mut f: usize = 0;
    proof {
        assert(symbol_views(symbols@) =~= Seq::empty());
        assert(failure_views(failures@) =~= Seq::empty());
    }
    while f < files.len()
        invariant
            f <= files@.len(),
            none@.len() == 0,
            outcomes.len() == f,
            forall|i: int|
                0 <= i < f ==> is_outcome(
                    #[trigger] outcomes[i],
                    files@[i].path@,
                    repo_root@,
                    files@[i].source@,
                ),
            symbol_views(symbols@) == all_touched(outcomes, files@, changed@),
            failure_views(failures@) == all_failures(outcomes, files@),
        decreases files@.len() - f,
    {
        let path = files[f].path.as_str();
        let ghost symbols_before = symbol_views(symbols@);
        let ghost failures_before = failure_views(failures@);
        let ghost outcomes_before = outcomes;
        let parsed = parse_file(path, repo_root, files[f].source.as_str());
        proof {
            outcomes = outcomes.push(outcome(parsed));
            assert(outcomes.drop_last() =~= outcomes_before);
            assert(outcomes[f as int] == outcome(parsed));
        }
        match &parsed {
            Ok(file) => {
                let ranges = match changed.get(path) {
                    Some(ranges) => ranges,
                    None => &none,
                };
                assert(ranges@ =~= listed(changed@, path@));
                let more = touched_symbols(file.defined.as_slice(), ranges.as_slice());
                append_symbols(&mut symbols, &more);
            },
            Err(e) => {
                failures.push((path.to_owned(), *e));
                assert(failure_views(failures@) =~= failures_before.push((path@, *e)));
            },
        }
        f += 1;
    }
    assert(are_outcomes(outcomes, files@, repo_root@));
    Changes { symbols, failures }
}

fn append_symbols(symbols: &mut Vec<Symbol>, more: &Vec<Symbol>)
    ensures
        symbol_views(final(symbols)@) == symbol_views(old(symbols)@) + symbol_views(more@),
{
    let ghost before = symbol_views(symbols@);
    let mut i: usize = 0;
    assert(before + symbol_views(more@).take(0) =~= before);
    while i < more.len()
        invariant
            i <= more@.len(),
            symbol_views(symbols@) == before + symbol_views(more@).take(i as int),
        decreases more@.len() - i,
    {
        let ghost start = symbols@;
        symbols.push(more[i].clone());
        i += 1;
        assert(symbol_views(symbols@) =~= symbol_views(start).push(more@[i - 1]@));
        assert(symbol_views(symbols@) =~= before + symbol_views(more@).take(i as int));
    }
    assert(symbol_views(more@).take(i as int) =~= symbol_views(more@));
}

/// The symbols that stand in no excluded file, in order.
pub fn drop_excluded(symbols: &[Symbol], exclude: &[String]) -> (r: Vec<Symbol>)
    ensures
        symbol_views(r@) == symbol_views(symbols@).filter(
            |s: SymbolView| !matches_any(s.file, views(exclude@)),
        ),
{
    let ghost sv = symbol_views(symbols@);
    let ghost keep = |s: SymbolView| !matches_any(s.file, views(exclude@));
    let mut r: Vec<Symbol> = Vec::new();
    let mut i: usize = 0;
    assert(symbol_views(r@) =~= sv.take(0).filter(keep));
    while i < symbols.len()
        invariant
            i <= symbols@.len(),
            sv == symbol_views(symbols@),
            keep == (|s: SymbolView| !matches_any(s.file, views(exclude@))),
            symbol_views(r@) == sv.take(i as int).filter(keep),
        decreases symbols@.len() - i,
    {
        let symbol = &symbols[i];
        let ghost before = r@;
        proof {
            let now = sv.take(i + 1);
            assert(now.drop_last() =~= sv.take(i as int));
            assert(now.last() == symbol@);
            reveal(Seq::filter);
        }
        if !is_excluded(symbol.file.as_str(), exclude) {
            r.push(symbol.clone());
            assert(symbol_views(r@) =~= symbol_views(before).push(symbol@));
        }
        i += 1;
    }
    assert(sv.take(i as int) =~= sv);
    r
}

/// The branch to compare against where none is named, out of what the repository has: `main`,
/// or else `master`, or else none.
pub fn find_default_branch(has_main: bool, has_master: bool) -> (r: Option<String>)
    ensures
        match r {
            Some(name) => if has_main {
                name@ == "main"@
            } else {
                has_master && name@ == "master"@
            },
            None => !has_main && !has_master,
        },
{
    if has_main {
        Some("main".to_owned())
    } else if has_master {
        Some("master".to_owned())
    } else {
        None
    }
}

} // verus!
