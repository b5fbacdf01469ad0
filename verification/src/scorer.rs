//! How risky a change of a symbol is.
use crate::binary64::{
    lemma_plus, lemma_quotient, lemma_times, of_int, one, quotient, Binary64,
    LEAST_MANTISSA,
};
use crate::callgraph::{radius_view, CallGraph, RepoBaseline};
use crate::names::{lemma_next_kept, NameSet};
use crate::parser::{symbol_views, Symbol, SymbolView};
use crate::paths::{is_rest, module_name, module_of_relative, opt_view, strip_prefix};
use crate::text::{
    ends_with, is_empty, starts_with, strip_start, strip_suffix, views, without_prefix, without_suffix,
};
use vstd::prelude::*;
use vstd::string::*;

verus! {

/// What a change of a symbol puts at risk: how many callers it has, direct and transitive; how
/// many modules they stand in; how many of them, and which fraction, are covered by no test; at
/// which percentile of the repository its number of direct callers stands; and the score of all
/// that, from 0 to 100.
#[derive(Debug)]
pub struct RiskScore {
    pub symbol: Symbol,
    pub direct_callers: usize,
    pub transitive_callers: usize,
    pub modules_affected: usize,
    pub uncovered_callers: usize,
    pub uncovered_ratio: Binary64,
    pub percentile: Binary64,
    pub score: Binary64,
}

/// What a [`RiskScore`] says.
pub struct ScoreView {
    pub symbol: SymbolView,
    pub direct_callers: nat,
    pub transitive_callers: nat,
    pub modules_affected: nat,
    pub uncovered_callers: nat,
    pub uncovered_ratio: Binary64,
    pub percentile: Binary64,
    pub score: Binary64,
}

impl View for RiskScore {
    type V = ScoreView;

    open spec fn view(&self) -> ScoreView {
        ScoreView {
            symbol: self.symbol@,
            direct_callers: self.direct_callers as nat,
            transitive_callers: self.transitive_callers as nat,
            modules_affected: self.modules_affected as nat,
            uncovered_callers: self.uncovered_callers as nat,
            uncovered_ratio: self.uncovered_ratio,
            percentile: self.percentile,
            score: self.score,
        }
    }
}

/// What each score of `scores` says.
pub open spec fn score_views(scores: Seq<RiskScore>) -> Seq<ScoreView> {
    scores.map_values(|s: RiskScore| s@)
}

/// The label of a symbol at `percentile` of whose callers the fraction `ratio` is uncovered.
pub open spec fn label(percentile: Binary64, ratio: Binary64) -> Seq<char> {
    let mostly_uncovered = ratio.units() > quotient(1, 2).units();
    if percentile.units() >= quotient(9, 10).units() && mostly_uncovered {
        "HIGH"@
    } else if percentile.units() >= quotient(3, 4).units() || mostly_uncovered {
        "MED"@
    } else {
        "LOW"@
    }
}

/// The bar that goes with a label.
pub open spec fn bar(label: Seq<char>) -> Seq<char> {
    if label == "HIGH"@ {
        "████"@
    } else if label == "MED"@ {
        "███"@
    } else {
        "█"@
    }
}

impl ScoreView {
    /// The fractions are fractions, and the score is one from 0 to 100.
    pub open spec fn is_valid(self) -> bool {
        &&& self.uncovered_ratio.is_within(400)
        &&& self.percentile.is_within(400)
        &&& self.score.is_canonical()
        &&& self.uncovered_ratio.units() <= one()
        &&& self.percentile.units() <= one()
        &&& self.score.units() <= 100 * one()
    }

    pub open spec fn label(self) -> Seq<char> {
        label(self.percentile, self.uncovered_ratio)
    }
}

impl RiskScore {
    pub open spec fn is_valid(&self) -> bool {
        self@.is_valid()
    }

    /// How risky the change is: `HIGH`, `MED` or `LOW`.
    pub fn risk_label(&self) -> (r: &'static str)
        requires
            self.percentile.is_canonical(),
            self.uncovered_ratio.is_canonical(),
        ensures
            r@ == self@.label(),
    {
        let mostly_uncovered = Binary64::ratio(1, 2).is_less(self.uncovered_ratio);
        if !self.percentile.is_less(Binary64::ratio(9, 10)) && mostly_uncovered {
            "HIGH"
        } else if !self.percentile.is_less(Binary64::ratio(3, 4)) || mostly_uncovered {
            "MED"
        } else {
            "LOW"
        }
    }

    /// A bar that is longer the riskier the change is.
    pub fn risk_bar(&self) -> (r: &'static str)
        requires
            self.percentile.is_canonical(),
            self.uncovered_ratio.is_canonical(),
        ensures
            r@ == bar(self@.label()),
    {
        let label = self.risk_label();
        if *label == *"HIGH" {
            "████"
        } else if *label == *"MED" {
            "███"
        } else {
            "█"
        }
    }
}

impl CallGraph {
    /// The callers of `sym` that count, direct and transitive: those in no excluded file.
    pub open spec fn reached(&self, sym: Seq<char>, exclude: Seq<Seq<char>>) -> Set<Seq<char>> {
        self.affected(sym).filter(|c: Seq<char>| !self.excludes(c, exclude))
    }

    /// The modules that the symbols among `names` stand in.
    pub open spec fn modules_of(&self, names: Set<Seq<char>>) -> Set<Seq<char>> {
        Set::new(
            |m: Seq<char>|
                exists|n: Seq<char>|
                    names.contains(n) && self.table().contains_key(n) && #[trigger] self.table()[n].module
                        == m,
        )
    }

    /// `name` is a symbol of a module that no test covers.
    pub open spec fn is_uncovered(&self, name: Seq<char>, tests: Set<Seq<char>>) -> bool {
        self.table().contains_key(name) && !tests.contains(self.table()[name].module)
    }
}

/// The number `n`, or 1 where it is 0.
pub open spec fn at_least_one(n: nat) -> nat {
    if n == 0 {
        1
    } else {
        n
    }
}

/// The score of a symbol at `percentile` of whose callers the fraction `ratio` is uncovered.
pub open spec fn weighted(percentile: Binary64, ratio: Binary64) -> Binary64 {
    percentile.times(of_int(60)).plus(ratio.times(of_int(40)))
}

/// What a change of `sym` puts at risk.
pub open spec fn assessment(
    sym: SymbolView,
    graph: &CallGraph,
    tests: Set<Seq<char>>,
    exclude: Seq<Seq<char>>,
    baseline: &RepoBaseline,
) -> ScoreView {
    let full = sym.full_name();
    let reached = graph.reached(full, exclude);
    let direct = graph.counted_callers(full, exclude).len();
    let uncovered = reached.filter(|c: Seq<char>| graph.is_uncovered(c, tests)).len();
    let ratio = quotient(uncovered, at_least_one(reached.len()));
    let percentile = baseline.percentile(direct as usize);
    ScoreView {
        symbol: sym,
        direct_callers: direct,
        transitive_callers: reached.len(),
        modules_affected: graph.modules_of(reached).insert(sym.module).len(),
        uncovered_callers: uncovered,
        uncovered_ratio: ratio,
        percentile,
        score: weighted(percentile, ratio),
    }
}

/// A score lies between 0 and 100. With a higher percentile or a higher fraction of uncovered
/// callers it is not lower.
pub proof fn lemma_weighted(
    percentile: Binary64,
    ratio: Binary64,
    higher_percentile: Binary64,
    higher_ratio: Binary64,
)
    requires
        percentile.units() <= higher_percentile.units() <= one(),
        ratio.units() <= higher_ratio.units() <= one(),
        percentile.units() == 0 || percentile.units() >= LEAST_MANTISSA,
        ratio.units() == 0 || ratio.units() >= LEAST_MANTISSA,
        higher_percentile.units() == 0 || higher_percentile.units() >= LEAST_MANTISSA,
        higher_ratio.units() == 0 || higher_ratio.units() >= LEAST_MANTISSA,
    ensures
        weighted(percentile, ratio).units() <= weighted(higher_percentile, higher_ratio).units()
            <= 100 * one(),
{
    lemma_times(percentile, higher_percentile, 60);
    lemma_times(ratio, higher_ratio, 40);
    lemma_plus(
        percentile.times(of_int(60)),
        ratio.times(of_int(40)),
        higher_percentile.times(of_int(60)),
        higher_ratio.times(of_int(40)),
        100,
    );
}

/// What a change of `sym` puts at risk.
pub fn assess(
    sym: &Symbol,
    graph: &CallGraph,
    test_modules: &NameSet,
    exclude: &[String],
    baseline: &RepoBaseline,
) -> (r: RiskScore)
    requires
        baseline.is_ordered(),
    ensures
        r@ == assessment(sym@, graph, test_modules@, views(exclude@), baseline),
        r.is_valid(),
{
    let full = sym.full_name();
    let direct = graph.direct_callers_filtered(full.as_str(), exclude);
    let radius = graph.blast_radius(full.as_str());
    let total: usize = radius.len();
    let mut transitive: usize = 0;
    let mut uncovered: usize = 0;
    let mut modules = NameSet::new();
    modules.insert(sym.module.as_str());
    let ghost names = radius_view(radius@).map_values(|e: (Seq<char>, nat)| e.0);
    let ghost counts = |c: Seq<char>| !graph.excludes(c, views(exclude@));
    let ghost untested = |c: Seq<char>| graph.is_uncovered(c, test_modules@);
    let ghost both = |c: Seq<char>| counts(c) && untested(c);
    proof {
        graph.lemma_radius_lists_affected(full@, radius_view(radius@), names);
        assert(names.take(0).to_set().filter(counts) =~= Set::empty());
        assert(names.take(0).to_set().filter(both) =~= Set::empty());
        assert(modules@ =~= graph.modules_of(names.take(0).to_set().filter(counts)).insert(
            sym@.module,
        ));
    }
    let mut i: usize = 0;
    while i < total
        invariant
            i <= total == radius@.len() == names.len(),
            names == radius_view(radius@).map_values(|e: (Seq<char>, nat)| e.0),
            names.no_duplicates(),
            counts == (|c: Seq<char>| !graph.excludes(c, views(exclude@))),
            untested == (|c: Seq<char>| graph.is_uncovered(c, test_modules@)),
            both == (|c: Seq<char>| counts(c) && untested(c)),
            transitive <= i,
            uncovered <= transitive,
            names.take(i as int).to_set().filter(counts).finite(),
            transitive == names.take(i as int).to_set().filter(counts).len(),
            names.take(i as int).to_set().filter(both).finite(),
            uncovered == names.take(i as int).to_set().filter(both).len(),
            modules@ == graph.modules_of(names.take(i as int).to_set().filter(counts)).insert(
                sym@.module,
            ),
        decreases total - i,
    {
        let name = radius[i].0.as_str();
        let ghost before = names.take(i as int).to_set().filter(counts);
        let ghost modules_before = modules@;
        proof {
            assert(names[i as int] == name@);
            lemma_next_kept(names, i as int, counts);
            lemma_next_kept(names, i as int, both);
        }
        if !graph.is_caller_excluded(name, exclude) {
            transitive += 1;
            if let Some(caller) = graph.symbols.get(name) {
                let module = caller.module.as_str();
                assert(graph.table()[name@].module == module@);
                modules.insert(module);
                if !test_modules.contains(module) {
                    uncovered += 1;
                }
            }
        }
        proof {
            let after = names.take(i + 1).to_set().filter(counts);
            assert(modules@ =~= graph.modules_of(after).insert(sym@.module));
        }
        i += 1;
    }
    proof {
        assert(names.take(i as int) =~= names);
        assert(names.to_set().filter(counts) =~= graph.reached(full@, views(exclude@)));
        assert(names.to_set().filter(both) =~= graph.reached(full@, views(exclude@)).filter(
            untested,
        ));
    }
    let ratio = Binary64::ratio(
        uncovered,
        if transitive == 0 {
            1
        } else {
            transitive
        },
    );
    let percentile = baseline.percentile_of(direct);
    proof {
        lemma_quotient(
            uncovered as nat,
            uncovered as nat,
            at_least_one(transitive as nat),
        );
        lemma_weighted(percentile, ratio, percentile, ratio);
    }
    let score = percentile.multiply(Binary64::from_usize(60)).plus_value(
        ratio.multiply(Binary64::from_usize(40)),
    );
    let modules_affected = modules.len();
    RiskScore {
        symbol: sym.clone(),
        direct_callers: direct,
        transitive_callers: transitive,
        modules_affected,
        uncovered_callers: uncovered,
        uncovered_ratio: ratio,
        percentile,
        score,
    }
}

/// `after` holds what `before` holds, the element at `places[i]` of `before` at place `i`: the
/// highest score first, and of equal ones the one that came first.
pub open spec fn is_ranking(
    before: Seq<ScoreView>,
    after: Seq<ScoreView>,
    places: Seq<int>,
) -> bool {
    &&& after.len() == before.len()
    &&& places.len() == before.len()
    &&& places.no_duplicates()
    &&& forall|i: int| 0 <= i < places.len() ==> 0 <= #[trigger] places[i] < before.len()
    &&& forall|i: int| 0 <= i < after.len() ==> #[trigger] after[i] == before[places[i]]
    &&& forall|i: int, j: int|
        0 <= i < j < after.len() ==> after[i].score.units() > after[j].score.units() || (
        after[i].score.units() == after[j].score.units() && #[trigger] places[i]
            < #[trigger] places[j])
}

/// `after` holds what `before` holds, the highest score first, and of equal ones the one that
/// came first.
pub open spec fn ranks(before: Seq<ScoreView>, after: Seq<ScoreView>) -> bool {
    exists|places: Seq<int>| is_ranking(before, after, places)
}

/// Inserts `score`, which comes behind all that `before` holds, where it belongs.
fn place_score(ranked: &mut Vec<RiskScore>, score: RiskScore, Ghost(before): Ghost<Seq<ScoreView>>)
    requires
        ranks(before, score_views(old(ranked)@)),
        forall|i: int| 0 <= i < old(ranked)@.len() ==> (#[trigger] old(ranked)@[i]).is_valid(),
        score.is_valid(),
    ensures
        ranks(before.push(score@), score_views(final(ranked)@)),
        forall|i: int| 0 <= i < final(ranked)@.len() ==> (#[trigger] final(ranked)@[i]).is_valid(),
{
    let ghost old_ranked = ranked@;
    let ghost sorted = score_views(ranked@);
    let ghost places = choose|places: Seq<int>| is_ranking(before, sorted, places);
    let mut at: usize = ranked.len();
    while at > 0 && ranked[at - 1].score.is_less(score.score)
        invariant
            at <= ranked@.len(),
            ranked@ == old_ranked,
            score.is_valid(),
            forall|i: int| 0 <= i < ranked@.len() ==> (#[trigger] ranked@[i]).is_valid(),
            forall|i: int|
                at <= i < ranked@.len() ==> (#[trigger] ranked@[i]).score.units()
                    < score.score.units(),
        decreases at,
    {
        at -= 1;
    }
    proof {
        let k = at as int;
        let more = before.push(score@);
        let after = sorted.insert(k, score@);
        let there = places.insert(k, before.len() as int);
        assert(score_views(old_ranked.insert(k, score)) =~= after);
        assert forall|i: int| 0 <= i < k implies after[i].score.units() >= score.score.units() by {
            assert(old_ranked[at - 1].score.units() >= score.score.units());
            assert(sorted[i] == old_ranked[i]@);
            assert(sorted[k - 1] == old_ranked[k - 1]@);
            if i < k - 1 {
                assert(places[i] != places[k - 1]);
            }
        }
        assert forall|i: int| k < i < after.len() implies after[i].score.units()
            < score.score.units() by {
            assert(sorted[i - 1] == old_ranked[i - 1]@);
        }
        assert forall|i: int, j: int| 0 <= i < j < after.len() implies (
        after[i].score.units() > after[j].score.units() || (after[i].score.units()
            == after[j].score.units() && #[trigger] there[i] < #[trigger] there[j])) by {
            let a = if i < k {
                i
            } else {
                i - 1
            };
            let b = if j < k {
                j
            } else {
                j - 1
            };
            if i != k && j != k {
                assert(after[i] == sorted[a] && after[j] == sorted[b]);
                assert(there[i] == places[a] && there[j] == places[b]);
            } else if j == k {
                assert(there[i] == places[i]);
            }
        }
        assert forall|i: int| 0 <= i < there.len() implies 0 <= #[trigger] there[i] < more.len() by {
            if i < k {
                assert(there[i] == places[i]);
            } else if i > k {
                assert(there[i] == places[i - 1]);
            }
        }
        assert forall|i: int| 0 <= i < after.len() implies #[trigger] after[i] == more[there[i]] by {
            if i < k {
                assert(there[i] == places[i]);
                assert(after[i] == sorted[i]);
            } else if i > k {
                assert(there[i] == places[i - 1]);
                assert(after[i] == sorted[i - 1]);
            }
        }
        assert forall|i: int, j: int| 0 <= i < j < there.len() implies there[i] != there[j] by {
            let a = if i < k {
                i
            } else {
                i - 1
            };
            let b = if j < k {
                j
            } else {
                j - 1
            };
            if i != k && j != k {
                assert(there[i] == places[a] && there[j] == places[b]);
            } else if i == k {
                assert(there[j] == places[b]);
            } else {
                assert(there[i] == places[a]);
            }
        }
        assert(is_ranking(more, after, there));
    }
    ranked.insert(at, score);
}

/// What a change of each of the `changed` symbols puts at risk, in the order of the symbols.
pub open spec fn assessments(
    changed: Seq<SymbolView>,
    graph: &CallGraph,
    tests: Set<Seq<char>>,
    exclude: Seq<Seq<char>>,
    baseline: &RepoBaseline,
) -> Seq<ScoreView> {
    changed.map_values(|s: SymbolView| assessment(s, graph, tests, exclude, baseline))
}

/// What a change of each of the `changed` symbols puts at risk, the highest score first, and of
/// equal ones the one that came first.
pub fn score_all(
    changed: &[Symbol],
    graph: &CallGraph,
    test_modules: &NameSet,
    exclude: &[String],
    baseline: &RepoBaseline,
) -> (r: Vec<RiskScore>)
    requires
        baseline.is_ordered(),
    ensures
        ranks(
            assessments(
                symbol_views(changed@),
                graph,
                test_modules@,
                views(exclude@),
                baseline,
            ),
            score_views(r@),
        ),
        forall|i: int| 0 <= i < r@.len() ==> (#[trigger] r@[i]).is_valid(),
{
    let ghost all = assessments(
        symbol_views(changed@),
        graph,
        test_modules@,
        views(exclude@),
        baseline,
    );
    let mut r: Vec<RiskScore> = Vec::new();
    let mut i: usize = 0;
    assert(is_ranking(all.take(0), score_views(r@), Seq::empty()));
    while i < changed.len()
        invariant
            i <= changed@.len(),
            all == assessments(
                symbol_views(changed@),
                graph,
                test_modules@,
                views(exclude@),
                baseline,
            ),
            baseline.is_ordered(),
            ranks(all.take(i as int), score_views(r@)),
            forall|k: int| 0 <= k < r@.len() ==> (#[trigger] r@[k]).is_valid(),
        decreases changed@.len() - i,
    {
        let score = assess(&changed[i], graph, test_modules, exclude, baseline);
        assert(all.take(i + 1) =~= all.take(i as int).push(score@));
        place_score(&mut r, score, Ghost(all.take(i as int)));
        i += 1;
    }
    assert(all.take(i as int) =~= all);
    r
}

/// A file or a directory of the repository: its name, and the path of the directory it is in.
#[derive(Debug)]
pub struct Entry {
    pub name: String,
    pub parent: String,
}

/// `name` is one that a file of tests has.
pub open spec fn is_test_file(name: Seq<char>) -> bool {
    ".py"@.is_suffix_of(name) && ("test_"@.is_prefix_of(name) || "_test.py"@.is_suffix_of(name))
}

/// The name, without its ending, of the file that the file of tests `name` belongs to: `foo` for
/// `test_foo.py` and for `foo_test.py`.
pub open spec fn tested_stem(name: Seq<char>) -> Seq<char> {
    let stem = without_suffix(name, ".py"@);
    if "test_"@.is_prefix_of(stem) {
        without_prefix(stem, "test_"@)
    } else {
        without_suffix(stem, "_test"@)
    }
}

/// The path of the file `stem.py` in the directory at `dir`.
pub open spec fn path_in(dir: Seq<char>, stem: Seq<char>) -> Seq<char> {
    if dir.len() == 0 {
        stem + ".py"@
    } else {
        dir + "/"@ + stem + ".py"@
    }
}

/// The module that the file `name` tests, in the directory at `dir`, a path from the root of the
/// repository: that of the file next to it that it belongs to.
pub open spec fn tested_module(name: Seq<char>, dir: Option<Seq<char>>) -> Option<Seq<char>> {
    match dir {
        Some(dir) => if is_test_file(name) && tested_stem(name).len() > 0 {
            Some(module_name(path_in(dir, tested_stem(name))))
        } else {
            None
        },
        None => None,
    }
}

/// The module that the file `name` tests, in the directory at `dir`, a path from the root of the
/// repository.
pub fn tested_by(name: &str, dir: &Option<String>) -> (r: Option<String>)
    ensures
        opt_view(r) == tested_module(name@, opt_view(*dir)),
{
    if !(ends_with(name, ".py") && (starts_with(name, "test_") || ends_with(name, "_test.py"))) {
        return None;
    }
    let base = strip_suffix(name, ".py");
    let stem = if starts_with(base.as_str(), "test_") {
        strip_start(base.as_str(), "test_")
    } else {
        strip_suffix(base.as_str(), "_test")
    };
    match dir {
        Some(dir) => if is_empty(stem.as_str()) {
            None
        } else {
            let mut path = dir.clone();
            if !is_empty(dir.as_str()) {
                path.append("/");
            }
            path.append(stem.as_str());
            path.append(".py");
            assert(path@ =~= path_in(dir@, stem@));
            Some(module_of_relative(path.as_str()))
        },
        None => None,
    }
}

/// The modules that the `entries` test, each of which stands in the directory that `dirs` has in
/// its place, a path from the root of the repository.
pub open spec fn tested_modules(entries: Seq<Entry>, dirs: Seq<Option<Seq<char>>>) -> Set<
    Seq<char>,
> {
    Set::new(
        |m: Seq<char>|
            exists|i: int|
                0 <= i < entries.len() && #[trigger] tested_module(entries[i].name@, dirs[i])
                    == Some(m),
    )
}

/// `dirs` are the directories of the `entries`, as paths from `repo_root`.
pub open spec fn are_dirs(
    dirs: Seq<Option<Seq<char>>>,
    entries: Seq<Entry>,
    repo_root: Seq<char>,
) -> bool {
    &&& dirs.len() == entries.len()
    &&& forall|i: int|
        0 <= i < dirs.len() ==> is_rest(#[trigger] dirs[i], entries[i].parent@, repo_root)
}

/// The modules that have a file of tests among the `entries` of the repository at `repo_root`.
pub fn find_test_modules(entries: &[Entry], repo_root: &str) -> (r: NameSet)
    ensures
        exists|dirs: Seq<Option<Seq<char>>>| #[trigger]
            are_dirs(dirs, entries@, repo_root@) && r@ == tested_modules(entries@, dirs),
{
    let mut r = NameSet::new();
    let ghost mut dirs: Seq<Option<Seq<char>>> = Seq::empty();
    let mut i: usize = 0;
    assert(r@ =~= tested_modules(entries@.take(0), dirs));
    while i < entries.len()
        invariant
            i <= entries@.len(),
            are_dirs(dirs, entries@.take(i as int), repo_root@),
            r@ == tested_modules(entries@.take(i as int), dirs),
        decreases entries@.len() - i,
    {
        let entry = &entries[i];
        let dir = strip_prefix(entry.parent.as_str(), repo_root);
        let ghost before = r@;
        let tested = tested_by(entry.name.as_str(), &dir);
        if let Some(module) = &tested {
            r.insert(module.as_str());
        }
        proof {
            let done = entries@.take(i as int);
            let now = entries@.take(i + 1);
            let now_dirs = dirs.push(opt_view(dir));
            let here = tested_module(entry.name@, opt_view(dir));
            assert(now[i as int] == *entry);
            assert(now_dirs[i as int] == opt_view(dir));
            assert forall|m: Seq<char>|
                tested_modules(now, now_dirs).contains(m) <==> before.contains(m) || here == Some(m) by {
                if tested_modules(now, now_dirs).contains(m) {
                    let k = choose|k: int|
                        0 <= k < now.len() && #[trigger] tested_module(now[k].name@, now_dirs[k])
                            == Some(m);
                    if k < i {
                        assert(done[k] == now[k] && dirs[k] == now_dirs[k]);
                        assert(tested_module(done[k].name@, dirs[k]) == Some(m));
                    }
                }
                if before.contains(m) {
                    let k = choose|k: int|
                        0 <= k < done.len() && #[trigger] tested_module(done[k].name@, dirs[k])
                            == Some(m);
                    assert(done[k] == now[k] && dirs[k] == now_dirs[k]);
                    assert(tested_module(now[k].name@, now_dirs[k]) == Some(m));
                }
                if here == Some(m) {
                    assert(tested_module(now[i as int].name@, now_dirs[i as int]) == Some(m));
                }
            }
            assert(r@ =~= tested_modules(now, now_dirs));
            assert forall|k: int| 0 <= k < now_dirs.len() implies is_rest(
                #[trigger] now_dirs[k],
                now[k].parent@,
                repo_root@,
            ) by {
                if k < i {
                    assert(now_dirs[k] == dirs[k] && now[k] == done[k]);
                }
            }
            dirs = now_dirs;
        }
        i += 1;
    }
    assert(entries@.take(i as int) =~= entries@);
    r
}

} // verus!
