//! What a score is made of.
use crate::binary64::{
    lemma_of_int, lemma_one, lemma_quotient, lemma_times, lemma_times_one, of_int, one, quotient,
    ulp, zero, Binary64,
};
use crate::callgraph::{CallGraph, RepoBaseline};
use crate::laws::graph::law_affected;
use crate::laws::numbers::{apart, law_rounding};
use crate::laws::{law_counts_are_consistent, lemma_all_places};
use crate::names::members;
use crate::parser::SymbolView;
use crate::paths::{is_rest, module_name};
use crate::reach::leads;
use crate::scorer::{
    are_dirs, assessment, assessments, at_least_one, bar, is_ranking, is_test_file, label, path_in,
    ranks, tested_module, tested_modules, tested_stem, weighted, Entry, ScoreView,
};
use vstd::arithmetic::power2::pow2;
use vstd::prelude::*;
use vstd::string::*;

verus! {

/// `c` is affected by a change of `full`, and is not known to stand in an excluded file.
pub open spec fn is_counted(
    graph: &CallGraph,
    full: Seq<char>,
    exclude: Seq<Seq<char>>,
    c: Seq<char>,
) -> bool {
    &&& c != full
    &&& exists|k: nat| #[trigger] leads(graph.callers@, full, c, k)
    &&& !graph.excludes(c, exclude)
}

/// The numbers of a score count what they are named after: the callers that count and are one call
/// away; those that are any number of calls away; the modules of these and of the symbol itself;
/// and those among them that stand in a module without tests. The fraction is that of the last in
/// all, and the percentile that of the direct callers.
pub proof fn law_score_counts(
    sym: SymbolView,
    graph: &CallGraph,
    tests: Set<Seq<char>>,
    exclude: Seq<Seq<char>>,
    baseline: &RepoBaseline,
)
    ensures
        ({
            let s = assessment(sym, graph, tests, exclude, baseline);
            let full = sym.module + seq!['.'] + sym.qualname;
            let table = graph.table();
            &&& s.symbol == sym
            &&& s.direct_callers == Set::new(
                |c: Seq<char>|
                    members(graph.callers@, full).contains(c) && !graph.excludes(c, exclude),
            ).len()
            &&& s.transitive_callers == Set::new(
                |c: Seq<char>| is_counted(graph, full, exclude, c),
            ).len()
            &&& s.uncovered_callers == Set::new(
                |c: Seq<char>|
                    is_counted(graph, full, exclude, c) && table.contains_key(c) && !tests.contains(
                        table[c].module,
                    ),
            ).len()
            &&& s.modules_affected == Set::new(
                |m: Seq<char>|
                    m == sym.module || exists|c: Seq<char>|
                        is_counted(graph, full, exclude, c) && table.contains_key(c)
                            && #[trigger] table[c].module == m,
            ).len()
            &&& s.transitive_callers > 0 ==> s.uncovered_ratio == quotient(
                s.uncovered_callers,
                s.transitive_callers,
            )
            &&& s.transitive_callers == 0 ==> s.uncovered_ratio == quotient(s.uncovered_callers, 1)
            &&& s.percentile == baseline.percentile(s.direct_callers as usize)
        }),
{
    let full = sym.module + seq!['.'] + sym.qualname;
    let table = graph.table();
    assert(sym.full_name() =~= full);
    assert forall|c: Seq<char>| #[trigger]
        graph.reached(full, exclude).contains(c) <==> is_counted(graph, full, exclude, c) by {
        law_affected(graph, full, c, 0);
    }
    let reached = graph.reached(full, exclude);
    assert(graph.counted_callers(full, exclude) =~= Set::new(
        |c: Seq<char>| members(graph.callers@, full).contains(c) && !graph.excludes(c, exclude),
    ));
    assert(reached =~= Set::new(|c: Seq<char>| is_counted(graph, full, exclude, c)));
    assert(reached.filter(|c: Seq<char>| graph.is_uncovered(c, tests)) =~= Set::new(
        |c: Seq<char>|
            is_counted(graph, full, exclude, c) && table.contains_key(c) && !tests.contains(
                table[c].module,
            ),
    ));
    let modules = Set::new(
        |m: Seq<char>|
            m == sym.module || exists|c: Seq<char>|
                is_counted(graph, full, exclude, c) && table.contains_key(c)
                    && #[trigger] table[c].module == m,
    );
    assert forall|m: Seq<char>|
        graph.modules_of(reached).insert(sym.module).contains(m) <==> modules.contains(m) by {
        if graph.modules_of(reached).contains(m) {
            let n = choose|n: Seq<char>|
                reached.contains(n) && table.contains_key(n) && #[trigger] table[n].module == m;
            assert(is_counted(graph, full, exclude, n) && table[n].module == m);
        }
        if m != sym.module && modules.contains(m) {
            let c = choose|c: Seq<char>|
                is_counted(graph, full, exclude, c) && table.contains_key(c)
                    && #[trigger] table[c].module == m;
            assert(reached.contains(c) && table[c].module == m);
        }
    }
    assert(graph.modules_of(reached).insert(sym.module) =~= modules);
}

/// The symbols of a change are assessed one by one.
pub proof fn law_each_is_assessed(
    changed: Seq<SymbolView>,
    graph: &CallGraph,
    tests: Set<Seq<char>>,
    exclude: Seq<Seq<char>>,
    baseline: &RepoBaseline,
    i: int,
)
    ensures
        assessments(changed, graph, tests, exclude, baseline).len() == changed.len(),
        0 <= i < changed.len() ==> assessments(changed, graph, tests, exclude, baseline)[i]
            == assessment(changed[i], graph, tests, exclude, baseline),
{
}

/// How far the product of a fraction and a small whole number is rounded.
proof fn lemma_product(x: Binary64, k: nat)
    requires
        x.units() == 0 || x.units() >= 0x10_0000_0000_0000,
        x.units() <= one(),
        0 < k <= 100,
    ensures
        ({
            let t = x.times(of_int(k)).units();
            0x20_0000_0000_0000 * apart(k * x.units(), t) <= k * one()
        }),
        x.times(of_int(k)).units() <= k * one(),
        x.times(of_int(k)).units() == 0 || x.times(of_int(k)).units() >= 0x10_0000_0000_0000,
        x.units() == 0 ==> x.times(of_int(k)).units() == 0,
        x.units() == one() ==> x.times(of_int(k)).units() == k * one(),
{
    lemma_one();
    lemma_of_int(k);
    lemma_times(x, x, k);
    let (w, z, a) = (one(), pow2(2044), x.units());
    assert(z == ulp(970));
    let product = a * (k * w);
    let least: nat = 0x10_0000_0000_0000;
    assert(product == 0 || least * w <= product) by (nonlinear_arith)
        requires
            product == a * (k * w),
            a == 0 || a >= least,
            k > 0,
    {
        assert(k * w >= w);
        if a > 0 {
            assert(a * (k * w) >= least * w);
        }
    }
    assert(product < least * (w * z)) by (nonlinear_arith)
        requires
            product == a * (k * w),
            a <= w,
            k <= 100,
            w > 0,
            z >= w * 0x1_0000_0000_0000_0000,
            least == 0x10_0000_0000_0000,
    {
        assert(k * w <= 100 * w);
        assert(a * (k * w) <= w * (100 * w));
        assert(w * (100 * w) < w * z);
        assert(w * z <= least * (w * z));
    }
    law_rounding(product, w, zero());
    let t = x.times(of_int(k)).units();
    let error = apart(k * a, t);
    assert(product == (k * a) * w && w * t == t * w) by (nonlinear_arith)
        requires
            product == a * (k * w),
    ;
    assert(apart(product, w * t) == error * w) by (nonlinear_arith)
        requires
            product == (k * a) * w,
            w * t == t * w,
            error == apart(k * a, t),
            w > 0,
    ;
    let two: nat = 0x20_0000_0000_0000;
    assert(two * error <= k * a) by (nonlinear_arith)
        requires
            two * (error * w) <= (k * a) * w,
            w > 0,
    {
        assert(two * (error * w) == (two * error) * w);
    }
    assert(k * a <= k * w) by (nonlinear_arith)
        requires
            a <= w,
    ;
    if a == w {
        lemma_times_one(x, k);
    }
}

/// The score of a symbol is 60 times its percentile and 40 times its fraction of uncovered callers,
/// up to 2^-45; of the two products and of their sum each is the value nearest to it. A symbol
/// all of whose callers are uncovered scores 40 more than one at the same percentile none of
/// whose callers are, up to 2^-44.
pub proof fn law_score_weighs_both(
    percentile: Binary64,
    ratio: Binary64,
    all: Binary64,
    none: Binary64,
)
    requires
        percentile.units() == 0 || 0x10_0000_0000_0000 <= percentile.units() <= one(),
        ratio.units() == 0 || 0x10_0000_0000_0000 <= ratio.units() <= one(),
        all.units() == one(),
        none.units() == 0,
    ensures
        0x2000_0000_0000 * apart(
            weighted(percentile, ratio).units(),
            60 * percentile.units() + 40 * ratio.units(),
        ) <= one(),
        0x1000_0000_0000 * apart(
            weighted(percentile, all).units(),
            weighted(percentile, none).units() + 40 * one(),
        ) <= one(),
        weighted(percentile, ratio) == percentile.times(of_int(60)).plus(ratio.times(of_int(40))),
{
    lemma_weighted_error(percentile, ratio);
    lemma_one();
    lemma_weighted_error(percentile, all);
    lemma_weighted_error(percentile, none);
}

proof fn lemma_weighted_error(percentile: Binary64, ratio: Binary64)
    requires
        percentile.units() == 0 || 0x10_0000_0000_0000 <= percentile.units() <= one(),
        ratio.units() == 0 || 0x10_0000_0000_0000 <= ratio.units() <= one(),
    ensures
        0x2000_0000_0000 * apart(
            weighted(percentile, ratio).units(),
            60 * percentile.units() + 40 * ratio.units(),
        ) <= one(),
{
    lemma_one();
    lemma_product(percentile, 60);
    lemma_product(ratio, 40);
    let (w, z) = (one(), pow2(2044));
    assert(z == ulp(970));
    let a = percentile.times(of_int(60)).units();
    let b = ratio.times(of_int(40)).units();
    let s = weighted(percentile, ratio).units();
    assert(a + b < 0x10_0000_0000_0000 * (1 * z)) by (nonlinear_arith)
        requires
            a + b <= 100 * w,
            w > 0,
            z >= w * 0x1_0000_0000_0000_0000,
    ;
    law_rounding(a + b, 1, zero());
    assert(1 * s == s);
    assert(0x20_0000_0000_0000 * apart(a + b, s) <= 100 * w);
}

/// The score of every assessed symbol weighs its percentile and its fraction of uncovered callers
/// so, whatever they are.
pub proof fn law_score(
    sym: SymbolView,
    graph: &CallGraph,
    tests: Set<Seq<char>>,
    exclude: Seq<Seq<char>>,
    baseline: &RepoBaseline,
)
    requires
        baseline.sorted_counts@.len() <= u64::MAX,
        assessment(sym, graph, tests, exclude, baseline).transitive_callers <= u64::MAX,
    ensures
        ({
            let s = assessment(sym, graph, tests, exclude, baseline);
            &&& 0x2000_0000_0000 * apart(
                s.score.units(),
                60 * s.percentile.units() + 40 * s.uncovered_ratio.units(),
            ) <= one()
            &&& s.score == s.percentile.times(of_int(60)).plus(s.uncovered_ratio.times(of_int(40)))
        }),
{
    let s = assessment(sym, graph, tests, exclude, baseline);
    law_counts_are_consistent(sym, graph, tests, exclude, baseline);
    baseline.lemma_percentile_is_fraction(s.direct_callers as usize);
    lemma_quotient(s.uncovered_callers, s.uncovered_callers, at_least_one(s.transitive_callers));
    lemma_weighted_error(s.percentile, s.uncovered_ratio);
}

/// A label is `HIGH` from nine tenths on where more than half is uncovered, `LOW` below three
/// quarters where not more than half is, and `MED` in between; a riskier one has a longer bar.
pub proof fn law_label_of(s: ScoreView)
    ensures
        ({
            let p = s.percentile.units();
            let much = s.uncovered_ratio.units() > quotient(1, 2).units();
            &&& p >= quotient(9, 10).units() && much ==> s.label() == "HIGH"@
            &&& p < quotient(9, 10).units() && much ==> s.label() == "MED"@
            &&& p >= quotient(3, 4).units() && !much ==> s.label() == "MED"@
            &&& p < quotient(3, 4).units() && !much ==> s.label() == "LOW"@
        }),
        s.label() == label(s.percentile, s.uncovered_ratio),
        bar("HIGH"@) == "████"@,
        bar("MED"@) == "███"@,
        bar("LOW"@) == "█"@,
{
    reveal_strlit("HIGH");
    reveal_strlit("MED");
    reveal_strlit("LOW");
    assert("HIGH"@.len() == 4 && "MED"@.len() == 3 && "LOW"@.len() == 3);
    assert("MED"@[0] == 'M' && "LOW"@[0] == 'L');
}

/// Ranked scores descend. Of any two, the one that came first still does unless the other scores
/// higher, and none is lost or doubled.
pub proof fn law_ranked(before: Seq<ScoreView>, after: Seq<ScoreView>, i: int, j: int)
    requires
        ranks(before, after),
        0 <= i < j < before.len(),
    ensures
        after.len() == before.len(),
        after[i].score.units() >= after[j].score.units(),
        exists|k: int, l: int|
            #![trigger after[k], after[l]]
            0 <= k < after.len() && 0 <= l < after.len() && k != l && after[k] == before[i]
                && after[l] == before[j] && (k < l <==> before[i].score.units()
                >= before[j].score.units()),
{
    let places = choose|places: Seq<int>| is_ranking(before, after, places);
    assert(places[i] < places.len() && places[j] < places.len());
    let k = lemma_all_places(before, after, places, i);
    let l = lemma_all_places(before, after, places, j);
    assert(after[k] == before[places[k]] && after[l] == before[places[l]]);
}

/// The names that files of tests have: `test_`, something and `.py`, or something and `_test.py`.
pub proof fn law_test_file(name: Seq<char>)
    ensures
        is_test_file(name) <==> (exists|a: Seq<char>| name == #[trigger] ("test_"@ + a + ".py"@))
            || (exists|a: Seq<char>| name == #[trigger] (a + "_test.py"@)),
{
    reveal_strlit("test_");
    reveal_strlit("_test.py");
    reveal_strlit(".py");
    if is_test_file(name) {
        if "test_"@.is_prefix_of(name) {
            let n = name.len();
            assert(n >= 5);
            assert(name.subrange(0, 5) =~= "test_"@);
            assert(name.subrange(n - 3, n as int) =~= ".py"@);
            assert(name[n - 3] == '.') by {
                assert(name.subrange(n - 3, n as int)[0] == '.');
            }
            assert(n >= 8) by {
                if n < 8 {
                    assert(name.subrange(0, 5)[n - 3] == "test_"@[n - 3]);
                }
            }
            let a = name.subrange(5, n - 3);
            assert(name =~= "test_"@ + a + ".py"@) by {
                assert forall|k: int| 0 <= k < n implies name[k] == ("test_"@ + a + ".py"@)[k] by {
                    if k < 5 {
                        assert(name.subrange(0, 5)[k] == "test_"@[k]);
                    } else if k >= n - 3 {
                        assert(name.subrange(n - 3, n as int)[k - n + 3] == ".py"@[k - n + 3]);
                    }
                }
            }
        } else {
            let a = name.take(name.len() - 8);
            assert(name =~= a + "_test.py"@);
        }
    }
    if exists|a: Seq<char>| name == #[trigger] ("test_"@ + a + ".py"@) {
        let a = choose|a: Seq<char>| name == #[trigger] ("test_"@ + a + ".py"@);
        assert(name.subrange(0, 5) =~= "test_"@);
        assert(name.subrange(name.len() - 3, name.len() as int) =~= ".py"@);
    }
    if exists|a: Seq<char>| name == #[trigger] (a + "_test.py"@) {
        let a = choose|a: Seq<char>| name == #[trigger] (a + "_test.py"@);
        assert(name.subrange(name.len() - 8, name.len() as int) =~= "_test.py"@);
        assert(name.subrange(name.len() - 3, name.len() as int) =~= ".py"@);
    }
}

/// What a file of tests is named after stands between `test_` and `.py`, or before `_test.py` where
/// it does not begin with `test_`.
pub proof fn law_tested_stem(a: Seq<char>)
    ensures
        tested_stem("test_"@ + a + ".py"@) == a,
        (forall|b: Seq<char>| a + "_test"@ != #[trigger] ("test_"@ + b)) ==> tested_stem(
            a + "_test.py"@,
        ) == a,
{
    reveal_strlit("test_");
    reveal_strlit("_test");
    reveal_strlit("_test.py");
    reveal_strlit(".py");
    let first = "test_"@ + a + ".py"@;
    assert(first.subrange(first.len() - 3, first.len() as int) =~= ".py"@);
    let stem = first.take(first.len() - 3);
    assert(stem =~= "test_"@ + a);
    assert(stem.subrange(0, 5) =~= "test_"@);
    assert(stem.skip(5) =~= a);
    let second = a + "_test.py"@;
    assert(second.subrange(second.len() - 3, second.len() as int) =~= ".py"@);
    let base = second.take(second.len() - 3);
    assert(base =~= a + "_test"@);
    assert(base.subrange(base.len() - 5, base.len() as int) =~= "_test"@);
    assert(base.take(base.len() - 5) =~= a);
    if "test_"@.is_prefix_of(base) {
        assert(base =~= "test_"@ + base.skip(5));
    }
}

/// A file tests a module only where it has the name of a file of tests that is named after
/// something, and stands in the repository; that module is then that of the file of that name in
/// the same directory.
pub proof fn law_tested_module(name: Seq<char>, dir: Seq<char>, stem: Seq<char>)
    ensures
        tested_module(name, None) is None,
        tested_module(name, Some(dir)) is Some <==> is_test_file(name) && tested_stem(name).len()
            > 0,
        is_test_file(name) && tested_stem(name).len() > 0 && dir.len() > 0 ==> tested_module(
            name,
            Some(dir),
        ) == Some(module_name(dir + "/"@ + tested_stem(name) + ".py"@)),
        is_test_file(name) && tested_stem(name).len() > 0 && dir.len() == 0 ==> tested_module(
            name,
            Some(dir),
        ) == Some(module_name(tested_stem(name) + ".py"@)),
        dir.len() > 0 ==> path_in(dir, stem) == dir + "/"@ + stem + ".py"@,
        dir.len() == 0 ==> path_in(dir, stem) == stem + ".py"@,
{
}

/// With one entry more, the module that it tests is tested too, and nothing else changes.
pub proof fn law_tested_modules(
    entries: Seq<Entry>,
    dirs: Seq<Option<Seq<char>>>,
    entry: Entry,
    dir: Option<Seq<char>>,
    root: Seq<char>,
    m: Seq<char>,
)
    requires
        entries.len() == dirs.len(),
    ensures
        !tested_modules(Seq::empty(), Seq::empty()).contains(m),
        tested_modules(entries.push(entry), dirs.push(dir)).contains(m) <==> tested_modules(
            entries,
            dirs,
        ).contains(m) || tested_module(entry.name@, dir) == Some(m),
        are_dirs(dirs.push(dir), entries.push(entry), root) <==> are_dirs(dirs, entries, root)
            && is_rest(dir, entry.parent@, root),
        are_dirs(Seq::empty(), Seq::empty(), root),
{
    let (more, more_dirs) = (entries.push(entry), dirs.push(dir));
    if tested_modules(entries, dirs).contains(m) {
        let k = choose|k: int|
            0 <= k < entries.len() && #[trigger] tested_module(entries[k].name@, dirs[k]) == Some(m);
        assert(more[k] == entries[k] && more_dirs[k] == dirs[k]);
        assert(tested_module(more[k].name@, more_dirs[k]) == Some(m));
    }
    if tested_module(entry.name@, dir) == Some(m) {
        let k = entries.len() as int;
        assert(more[k] == entry && more_dirs[k] == dir);
        assert(tested_module(more[k].name@, more_dirs[k]) == Some(m));
    }
    if tested_modules(more, more_dirs).contains(m) && tested_module(entry.name@, dir) != Some(m) {
        let k = choose|k: int|
            0 <= k < more.len() && #[trigger] tested_module(more[k].name@, more_dirs[k]) == Some(m);
        assert(k < entries.len());
        assert(tested_module(entries[k].name@, dirs[k]) == Some(m));
    }
    if are_dirs(dirs, entries, root) && is_rest(dir, entry.parent@, root) {
        assert forall|k: int| 0 <= k < more_dirs.len() implies is_rest(
            #[trigger] more_dirs[k],
            more[k].parent@,
            root,
        ) by {
            if k < dirs.len() {
                assert(more_dirs[k] == dirs[k]);
            }
        }
    }
    if are_dirs(more_dirs, more, root) {
        assert(more_dirs[dirs.len() as int] == dir);
        assert forall|k: int| 0 <= k < dirs.len() implies is_rest(
            #[trigger] dirs[k],
            entries[k].parent@,
            root,
        ) by {
            assert(more_dirs[k] == dirs[k] && more[k] == entries[k]);
        }
    }
}

} // verus!
