//! Which lines a diff changes, and which symbols those lines belong to.
use crate::callgraph::matches_any;
use crate::git::{
    all_failures, all_touched, are_outcomes, changed_lines, hunk_range, hunk_ranges, is_python,
    lists_changes, overlaps, touched, HunkView, SourceFile, WHOLE_FILE,
};
use crate::laws::words::law_infix;
use crate::names::listed;
use crate::parser::{is_outcome, FileView, SymbolView};
use crate::syntax::ParseError;
use crate::text::has_infix;
use vstd::prelude::*;

verus! {

/// A hunk covers as many lines as it has, from its start on; one without lines covers its start.
pub proof fn law_hunk_covers_its_lines(hunk: HunkView, line: nat)
    requires
        hunk.new_start <= u32::MAX,
        hunk.new_lines <= u32::MAX,
    ensures
        hunk_range(hunk).0 <= line <= hunk_range(hunk).1 <==> hunk.new_start <= line && (line
            < hunk.new_start + hunk.new_lines || line == hunk.new_start),
{
}

/// A file holds Python exactly where its path is something with `.py` behind it.
pub proof fn law_python_path(path: Seq<char>)
    ensures
        is_python(path) <==> exists|a: Seq<char>| path == #[trigger] (a + ".py"@),
{
    let end = ".py"@;
    if is_python(path) {
        assert(path =~= path.take(path.len() - end.len()) + end);
    }
    if exists|a: Seq<char>| path == #[trigger] (a + end) {
        let a = choose|a: Seq<char>| path == #[trigger] (a + end);
        assert(path.subrange(path.len() - end.len(), path.len() as int) =~= end);
    }
}

/// The ranges of a file are those of its hunks, each as often as it is there, in their order.
pub proof fn law_ranges_follow_hunks(
    hunks: Seq<HunkView>,
    more: Seq<HunkView>,
    hunk: HunkView,
    path: Seq<char>,
)
    ensures
        hunk_ranges(hunks + more, path) == hunk_ranges(hunks, path) + hunk_ranges(more, path),
        hunk_ranges(seq![hunk], path) == if is_python(path) && hunk.path == path {
            seq![hunk_range(hunk)]
        } else {
            Seq::empty()
        },
        hunk_ranges(Seq::empty(), path) == Seq::<(u64, u64)>::empty(),
    decreases more.len(),
{
    let all = hunks + more;
    if more.len() == 0 {
        assert(all =~= hunks);
        assert(hunk_ranges(hunks, path) + hunk_ranges(more, path) =~= hunk_ranges(hunks, path));
    } else {
        assert(all.drop_last() =~= hunks + more.drop_last());
        law_ranges_follow_hunks(hunks, more.drop_last(), hunk, path);
        assert(hunk_ranges(all, path) =~= hunk_ranges(hunks, path) + hunk_ranges(more, path));
    }
    let one = seq![hunk];
    let none = Seq::<HunkView>::empty();
    assert(one.drop_last() =~= none);
    assert(one.last() == hunk);
    assert(hunk_ranges(none, path) =~= Seq::empty());
    assert(hunk_ranges(one, path) =~= if is_python(path) && hunk.path == path {
        seq![hunk_range(hunk)]
    } else {
        Seq::empty()
    });
}

proof fn lemma_range_of_hunk(hunks: Seq<HunkView>, path: Seq<char>, range: (u64, u64))
    ensures
        hunk_ranges(hunks, path).contains(range) <==> is_python(path) && exists|i: int|
            0 <= i < hunks.len() && (#[trigger] hunks[i]).path == path && hunk_range(hunks[i])
                == range,
    decreases hunks.len(),
{
    if hunks.len() > 0 {
        let front = hunks.drop_last();
        let last = hunks.last();
        lemma_range_of_hunk(front, path, range);
        let before = hunk_ranges(front, path);
        assert(hunks[hunks.len() - 1] == last);
        if is_python(path) && last.path == path {
            let all = before.push(hunk_range(last));
            assert(all.contains(range) <==> before.contains(range) || hunk_range(last) == range) by {
                if before.contains(range) {
                    let k = choose|k: int| 0 <= k < before.len() && before[k] == range;
                    assert(all[k] == range);
                }
                assert(all[before.len() as int] == hunk_range(last));
            }
        }
        if exists|i: int|
            0 <= i < hunks.len() && (#[trigger] hunks[i]).path == path && hunk_range(hunks[i])
                == range {
            let i = choose|i: int|
                0 <= i < hunks.len() && (#[trigger] hunks[i]).path == path && hunk_range(hunks[i])
                    == range;
            if i < front.len() {
                assert(front[i] == hunks[i]);
            }
        }
        if before.contains(range) && is_python(path) {
            let i = choose|i: int|
                0 <= i < front.len() && (#[trigger] front[i]).path == path && hunk_range(front[i])
                    == range;
            assert(hunks[i] == front[i]);
        }
    } else {
        assert(hunk_ranges(hunks, path).len() == 0);
    }
}

/// Which lines of a file count as changed: of a Python file those of its hunks, or, where it has
/// none and is new, the first 999999; of another file none.
pub proof fn law_changed_ranges(
    hunks: Seq<HunkView>,
    added: Seq<Seq<char>>,
    path: Seq<char>,
    range: (u64, u64),
)
    ensures
        ({
            let hit = exists|i: int| 0 <= i < hunks.len() && (#[trigger] hunks[i]).path == path;
            changed_lines(hunks, added, path).contains(range) <==> is_python(path) && (
            (exists|i: int|
                0 <= i < hunks.len() && (#[trigger] hunks[i]).path == path && hunk_range(hunks[i])
                    == range) || (!hit && added.contains(path) && range == (1u64, 999999u64)))
        }),
        (exists|i: int| 0 <= i < hunks.len() && (#[trigger] hunks[i]).path == path)
            ==> changed_lines(hunks, added, path) == hunk_ranges(hunks, path),
{
    lemma_range_of_hunk(hunks, path, range);
    let ranges = hunk_ranges(hunks, path);
    if exists|i: int| 0 <= i < hunks.len() && (#[trigger] hunks[i]).path == path {
        let i = choose|i: int| 0 <= i < hunks.len() && (#[trigger] hunks[i]).path == path;
        lemma_range_of_hunk(hunks, path, hunk_range(hunks[i]));
        if is_python(path) {
            assert(ranges.contains(hunk_range(hunks[i])));
            assert(ranges.len() > 0);
        }
    } else {
        if ranges.len() > 0 {
            lemma_range_of_hunk(hunks, path, ranges[0]);
            assert(ranges.contains(ranges[0]));
        }
    }
    let whole = seq![(1u64, 999999u64)];
    assert(whole.contains(range) <==> range == (1u64, 999999u64)) by {
        assert(whole[0] == (1u64, 999999u64));
    }
    assert(WHOLE_FILE == 999999u64);
}

/// The files that are listed as changed are the Python files with a hunk and the new Python files,
/// each with its changed lines.
pub proof fn law_changed_files(
    files: Map<Seq<char>, Vec<(u64, u64)>>,
    hunks: Seq<HunkView>,
    added: Seq<Seq<char>>,
    path: Seq<char>,
)
    requires
        lists_changes(files, hunks, added),
    ensures
        files.contains_key(path) <==> is_python(path) && (added.contains(path) || exists|i: int|
            0 <= i < hunks.len() && (#[trigger] hunks[i]).path == path),
        files.contains_key(path) ==> files[path]@ == changed_lines(hunks, added, path),
{
    let lines = changed_lines(hunks, added, path);
    assert(files.contains_key(path) <==> lines.len() > 0);
    assert(listed(files, path) == lines);
    if lines.len() > 0 {
        law_changed_ranges(hunks, added, path, lines[0]);
        assert(lines.contains(lines[0]));
    }
    if exists|i: int| 0 <= i < hunks.len() && (#[trigger] hunks[i]).path == path {
        let i = choose|i: int| 0 <= i < hunks.len() && (#[trigger] hunks[i]).path == path;
        law_changed_ranges(hunks, added, path, hunk_range(hunks[i]));
    } else {
        law_changed_ranges(hunks, added, path, (1u64, 999999u64));
    }
}

/// A symbol is touched where one of its lines is changed; and where neither it nor a range ends
/// before it starts, only there.
pub proof fn law_touched_line_by_line(changed: Seq<(u64, u64)>, start: nat, end: nat)
    ensures
        (exists|line: nat, i: int|
            start <= line <= end && 0 <= i < changed.len() && #[trigger] in_range(
                changed[i],
                line,
            )) ==> overlaps(changed, start, end),
        start <= end && (forall|i: int|
            0 <= i < changed.len() ==> (#[trigger] changed[i]).0 <= changed[i].1) && overlaps(
            changed,
            start,
            end,
        ) ==> exists|line: nat, i: int|
            start <= line <= end && 0 <= i < changed.len() && #[trigger] in_range(changed[i], line),
        overlaps(changed, start, end) <==> exists|i: int|
            0 <= i < changed.len() && (#[trigger] changed[i]).0 <= end && changed[i].1 >= start,
{
    if exists|line: nat, i: int|
        start <= line <= end && 0 <= i < changed.len() && #[trigger] in_range(changed[i], line) {
        let (line, i) = choose|line: nat, i: int|
            start <= line <= end && 0 <= i < changed.len() && #[trigger] in_range(changed[i], line);
        assert(start <= changed[i].1 && end >= changed[i].0);
    }
    if start <= end && (forall|i: int|
        0 <= i < changed.len() ==> (#[trigger] changed[i]).0 <= changed[i].1) && overlaps(
        changed,
        start,
        end,
    ) {
        let i = choose|i: int|
            0 <= i < changed.len() && (#[trigger] changed[i]).0 <= end && changed[i].1 >= start;
        let line: nat = if start <= changed[i].0 {
            changed[i].0 as nat
        } else {
            start
        };
        assert(in_range(changed[i], line));
    }
}

/// `line` is one of those from the start of `range` to its end.
pub open spec fn in_range(range: (u64, u64), line: nat) -> bool {
    range.0 <= line && line <= range.1
}

/// The touched symbols of a file are those of its definitions that a changed range meets, each as
/// often as it is there, in their order.
pub proof fn law_touched_symbols(
    a: Seq<SymbolView>,
    b: Seq<SymbolView>,
    s: SymbolView,
    changed: Seq<(u64, u64)>,
)
    ensures
        touched(a + b, changed) == touched(a, changed) + touched(b, changed),
        touched(seq![s], changed) == if (exists|i: int|
            0 <= i < changed.len() && (#[trigger] changed[i]).0 <= s.end_line && changed[i].1
                >= s.line) {
            seq![s]
        } else {
            Seq::empty()
        },
        touched(Seq::empty(), changed) == Seq::<SymbolView>::empty(),
    decreases b.len(),
{
    let keep = |t: SymbolView| overlaps(changed, t.line, t.end_line);
    law_touched_line_by_line(changed, s.line, s.end_line);
    reveal(Seq::filter);
    let all = a + b;
    if b.len() == 0 {
        assert(all =~= a);
        assert(touched(a, changed) + touched(b, changed) =~= touched(a, changed));
    } else {
        assert(all.drop_last() =~= a + b.drop_last());
        assert(all.last() == b.last());
        law_touched_symbols(a, b.drop_last(), s, changed);
        assert(touched(all, changed) =~= touched(a, changed) + touched(b, changed));
    }
    let one = seq![s];
    let none = Seq::<SymbolView>::empty();
    assert(one.drop_last() =~= none);
    assert(one.last() == s);
    assert(none.filter(keep) =~= none);
    assert(one.filter(keep) =~= if keep(s) {
        seq![s]
    } else {
        Seq::empty()
    });
}

/// The changed symbols of several files are those of each that was parsed, by its own ranges, one
/// file after the other; a file that was not gives none, and is named with the reason.
pub proof fn law_changes_of_files(
    outcomes: Seq<Result<FileView, ParseError>>,
    files: Seq<SourceFile>,
    changed: Map<Seq<char>, Vec<(u64, u64)>>,
    parsed: FileView,
    e: ParseError,
)
    ensures
        ({
            let path = files[outcomes.len() as int].path@;
            let ranges = if changed.contains_key(path) {
                changed[path]@
            } else {
                Seq::empty()
            };
            let good = outcomes.push(Ok(parsed));
            let bad = outcomes.push(Err(e));
            &&& all_touched(good, files, changed) == all_touched(outcomes, files, changed)
                + touched(parsed.defined, ranges)
            &&& all_touched(bad, files, changed) == all_touched(outcomes, files, changed)
            &&& all_failures(good, files) == all_failures(outcomes, files)
            &&& all_failures(bad, files) == all_failures(outcomes, files).push((path, e))
            &&& all_touched(Seq::empty(), files, changed).len() == 0
            &&& all_failures(Seq::empty(), files).len() == 0
        }),
{
    assert(outcomes.push(Ok(parsed)).drop_last() =~= outcomes);
    assert(outcomes.push(Err(e)).drop_last() =~= outcomes);
}

/// Each file has an outcome, and it is one of its own path and text.
pub proof fn law_outcomes_belong_to_files(
    outcomes: Seq<Result<FileView, ParseError>>,
    files: Seq<SourceFile>,
    repo_root: Seq<char>,
    i: int,
)
    requires
        are_outcomes(outcomes, files, repo_root),
    ensures
        outcomes.len() == files.len(),
        0 <= i < files.len() ==> is_outcome(
            outcomes[i],
            files[i].path@,
            repo_root,
            files[i].source@,
        ),
{
}

/// A path is excluded exactly where one of the patterns stands anywhere in it.
pub proof fn law_exclusion_is_by_substring(file: Seq<char>, patterns: Seq<Seq<char>>)
    ensures
        matches_any(file, patterns) <==> exists|i: int, a: Seq<char>, b: Seq<char>|
            0 <= i < patterns.len() && file == #[trigger] (a + patterns[i] + b),
{
    if matches_any(file, patterns) {
        let i = choose|i: int| 0 <= i < patterns.len() && has_infix(file, #[trigger] patterns[i]);
        law_infix(file, patterns[i]);
        let (a, b) = choose|a: Seq<char>, b: Seq<char>| file == #[trigger] (a + patterns[i] + b);
        assert(file == a + patterns[i] + b);
    }
    if exists|i: int, a: Seq<char>, b: Seq<char>|
        0 <= i < patterns.len() && file == #[trigger] (a + patterns[i] + b) {
        let (i, a, b) = choose|i: int, a: Seq<char>, b: Seq<char>|
            0 <= i < patterns.len() && file == #[trigger] (a + patterns[i] + b);
        law_infix(file, patterns[i]);
        assert(has_infix(file, patterns[i]));
    }
}

} // verus!
