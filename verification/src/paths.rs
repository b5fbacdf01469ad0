//! Paths of files, and the modules that they stand for.
use crate::text::{
    dots_for_separators, is_empty, joined, last_dot, lemma_last_dot, same, separators_to_dots, short_name,
    split_last_dot, strip_suffix, without_suffix,
};
use vstd::prelude::*;
use vstd::string::*;

verus! {

/// `path` is written in the one way that reads the same on every platform: one slash between two
/// parts, and at most one before the first; no slash at the end; and no part that is a single dot,
/// no backslash and no colon.
pub open spec fn is_plain(path: Seq<char>) -> bool {
    &&& path.len() > 0
    &&& path.last() != '/'
    &&& path[0] == '.' ==> path.len() >= 2 && path[1] != '/'
    &&& forall|i: int| 0 <= i < path.len() ==> (#[trigger] path[i]) != '\\' && path[i] != ':'
    &&& forall|i: int|
        0 <= i < path.len() - 1 && #[trigger] path[i] == '/' ==> path[i + 1] != '/' && (path[i + 1]
            == '.' ==> i + 2 < path.len() && path[i + 2] != '/')
}

/// `base` without a slash at its end.
pub open spec fn trimmed(base: Seq<char>) -> Seq<char> {
    if base.len() > 0 && base.last() == '/' {
        base.drop_last()
    } else {
        base
    }
}

/// What follows `base` and a slash in `path`, both plain.
pub open spec fn relative(path: Seq<char>, base: Seq<char>) -> Option<Seq<char>> {
    let front = trimmed(base);
    if path == front {
        Some(Seq::empty())
    } else if front.push('/').is_prefix_of(path) {
        Some(path.skip(front.len() as int + 1))
    } else {
        None
    }
}

/// The parts of `path` between slashes, but for empty ones and single dots.
pub open spec fn names_in(path: Seq<char>) -> Seq<Seq<char>>
    decreases path.len(),
{
    if path.len() == 0 {
        Seq::empty()
    } else if path.last() == '/' {
        names_in(path.drop_last())
    } else {
        proof {
            lemma_last_slash(path);
        }
        let k = last_slash(path);
        let last = path.skip(k + 1);
        let before = names_in(path.take(k + 1));
        if last == seq!['.'] {
            before
        } else {
            before.push(last)
        }
    }
}

/// The index of the last slash in `path`, or `-1` where it has none.
pub open spec fn last_slash(path: Seq<char>) -> int
    decreases path.len(),
{
    if path.len() == 0 {
        -1
    } else if path.last() == '/' {
        path.len() - 1
    } else {
        last_slash(path.drop_last())
    }
}

/// Where the last slash stands.
pub proof fn lemma_last_slash(path: Seq<char>)
    ensures
        -1 <= last_slash(path) < path.len(),
        last_slash(path) >= 0 ==> path[last_slash(path)] == '/',
        path.len() > 0 && path.last() != '/' ==> last_slash(path) < path.len() - 1,
        forall|i: int| last_slash(path) < i < path.len() ==> path[i] != '/',
    decreases path.len(),
{
    if path.len() > 0 && path.last() != '/' {
        let front = path.drop_last();
        lemma_last_slash(front);
        assert forall|i: int| last_slash(path) < i < path.len() implies path[i] != '/' by {
            if i < front.len() {
                assert(front[i] == path[i]);
            }
        }
    }
}

/// The parts of `path`: the root, where it starts there, and the names behind it.
pub open spec fn parts(path: Seq<char>) -> Seq<Seq<char>> {
    if path.len() > 0 && path[0] == '/' {
        seq![seq!['/']] + names_in(path)
    } else {
        names_in(path)
    }
}

/// `path` has the same parts on every platform: it has no backslash and no colon, does not start
/// with two slashes, and its first part is no single dot.
pub open spec fn is_slashed(path: Seq<char>) -> bool {
    &&& path.len() > 0
    &&& forall|i: int| 0 <= i < path.len() ==> (#[trigger] path[i]) != '\\' && path[i] != ':'
    &&& path[0] == '/' ==> path.len() == 1 || path[1] != '/'
    &&& path[0] == '.' ==> path.len() >= 2 && path[1] != '/'
}

/// `rest` is what follows `base` in `path`: there is such a rest exactly where the parts of `base`
/// are the first ones of `path`, and it has the other parts of `path`; where both are plain, it is
/// the text behind `base` and a slash. Where backslashes, colons, two slashes or a dot at the start
/// leave the reading to the platform, `rest` may be anything.
pub open spec fn is_rest(rest: Option<Seq<char>>, path: Seq<char>, base: Seq<char>) -> bool {
    &&& is_slashed(path) && is_slashed(base) ==> match rest {
        Some(rest) => parts(base).is_prefix_of(parts(path)) && parts(rest) == parts(path).skip(
            parts(base).len() as int,
        ),
        None => !parts(base).is_prefix_of(parts(path)),
    }
    &&& is_plain(path) && (trimmed(base).len() == 0 || is_plain(trimmed(base))) && base.len() > 0
        ==> rest == relative(path, base)
}

/// Where a slash stands with none behind it, it is the last one.
pub proof fn lemma_last_slash_is(path: Seq<char>, k: int)
    requires
        -1 <= k < path.len(),
        k >= 0 ==> path[k] == '/',
        forall|i: int| k < i < path.len() ==> path[i] != '/',
    ensures
        last_slash(path) == k,
    decreases path.len(),
{
    if path.len() > 0 && path.last() != '/' {
        lemma_last_slash_is(path.drop_last(), k);
    } else if path.len() > 0 {
        assert(path[path.len() - 1] == '/');
    }
}

/// The names behind a slash follow those before it.
pub proof fn lemma_names_behind_slash(a: Seq<char>, b: Seq<char>)
    ensures
        names_in(a.push('/') + b) == names_in(a) + names_in(b),
    decreases b.len(),
{
    let front = a.push('/');
    let all = front + b;
    if b.len() == 0 {
        assert(all =~= front);
        assert(front.drop_last() =~= a);
        assert(names_in(a) + names_in(b) =~= names_in(a));
    } else if b.last() == '/' {
        assert(all.drop_last() =~= front + b.drop_last());
        lemma_names_behind_slash(a, b.drop_last());
    } else {
        let k = last_slash(b);
        lemma_last_slash(b);
        assert(all[a.len() as int] == '/');
        assert forall|i: int| a.len() + 1 + k < i < all.len() implies all[i] != '/' by {
            assert(all[i] == b[i - a.len() - 1]);
        }
        assert(k >= 0 ==> all[a.len() + 1 + k] == b[k]);
        lemma_last_slash_is(all, a.len() + 1 + k);
        assert(all.skip(a.len() + 1 + k + 1) =~= b.skip(k + 1));
        assert(all.take(a.len() + 1 + k + 1) =~= front + b.take(k + 1));
        lemma_names_behind_slash(a, b.take(k + 1));
        let last = b.skip(k + 1);
        let before = names_in(b.take(k + 1));
        assert((names_in(a) + before).push(last) =~= names_in(a) + before.push(last));
    }
}

/// A path that does not start at the root is its names, with slashes between them.
proof fn lemma_plain_is_joined(path: Seq<char>)
    requires
        is_plain(path),
        path[0] != '/',
    ensures
        path == joined(names_in(path), seq!['/']),
        names_in(path).len() > 0,
    decreases path.len(),
{
    let k = last_slash(path);
    lemma_last_slash(path);
    assert(path[path.len() - 1] != '/');
    let last = path.skip(k + 1);
    assert(last.len() > 0);
    let before = names_in(path.take(k + 1));
    if last == seq!['.'] {
        assert(last[0] == '.');
        assert(path[k + 1] == '.');
        assert(k >= 0);
        assert(path[k] == '/');
    }
    assert(names_in(path) == before.push(last));
    if k < 0 {
        assert(path.take(k + 1) =~= Seq::empty());
        assert(before.len() == 0);
        assert(last =~= path);
    } else {
        let front = path.take(k);
        assert(k > 0);
        assert(path.take(k + 1).drop_last() =~= front);
        assert(path.take(k + 1).last() == '/');
        assert(front.last() == path[k - 1]);
        assert(path[k - 1] != '/');
        assert(is_plain(front)) by {
            assert forall|i: int| 0 <= i < front.len() implies (#[trigger] front[i]) != '\\'
                && front[i] != ':' by {
                assert(front[i] == path[i]);
            }
            assert forall|i: int|
                0 <= i < front.len() - 1 && #[trigger] front[i] == '/' implies front[i + 1] != '/'
                && (front[i + 1] == '.' ==> i + 2 < front.len() && front[i + 2] != '/') by {
                assert(path[i] == front[i]);
                assert(path[i + 1] == front[i + 1]);
                if front[i + 1] == '.' && i + 2 >= front.len() {
                    assert(path[i + 2] == '/');
                }
            }
            if front[0] == '.' {
                assert(path[0] == '.');
                assert(path[1] != '/');
                assert(k != 1);
            }
        }
        lemma_plain_is_joined(front);
        let names = before.push(last);
        assert(names.drop_last() =~= before);
        assert(path =~= front + seq!['/'] + last);
    }
}

/// Names with slashes between them, put behind others, with a slash between the two.
proof fn lemma_joined_behind(a: Seq<Seq<char>>, b: Seq<Seq<char>>)
    requires
        a.len() > 0,
        b.len() > 0,
    ensures
        joined(a + b, seq!['/']) == joined(a, seq!['/']) + seq!['/'] + joined(b, seq!['/']),
    decreases b.len(),
{
    let all = a + b;
    assert(all.drop_last() =~= a + b.drop_last());
    assert(all.last() == b.last());
    if b.len() == 1 {
        assert(all.drop_last() =~= a);
    } else {
        lemma_joined_behind(a, b.drop_last());
        assert(joined(all, seq!['/']) =~= joined(a, seq!['/']) + seq!['/'] + joined(
            b,
            seq!['/'],
        ));
    }
}

/// No name between slashes is a slash.
proof fn lemma_names_are_no_slashes(path: Seq<char>, i: int)
    requires
        0 <= i < names_in(path).len(),
    ensures
        names_in(path)[i] != seq!['/'],
    decreases path.len(),
{
    if path.last() == '/' {
        lemma_names_are_no_slashes(path.drop_last(), i);
    } else {
        let k = last_slash(path);
        lemma_last_slash(path);
        let before = names_in(path.take(k + 1));
        if i < before.len() {
            lemma_names_are_no_slashes(path.take(k + 1), i);
        } else {
            let last = path.skip(k + 1);
            assert(last[0] == path[k + 1]);
            assert(seq!['/'][0] == '/');
        }
    }
}

/// A plain path is its names with slashes between them, behind the root where it starts there.
proof fn lemma_plain_text(path: Seq<char>)
    requires
        is_plain(path),
    ensures
        names_in(path).len() > 0,
        path == if path[0] == '/' {
            seq!['/'] + joined(names_in(path), seq!['/'])
        } else {
            joined(names_in(path), seq!['/'])
        },
{
    if path[0] == '/' {
        let tail = path.skip(1);
        assert(path.last() != '/');
        assert(tail.len() > 0);
        assert(tail[0] == path[1]);
        assert(tail.last() == path.last());
        assert(path[1] != '/');
        assert forall|i: int| 0 <= i < tail.len() implies (#[trigger] tail[i]) != '\\' && tail[i]
            != ':' by {
            assert(tail[i] == path[i + 1]);
        }
        assert forall|i: int|
            0 <= i < tail.len() - 1 && #[trigger] tail[i] == '/' implies tail[i + 1] != '/' && (
        tail[i + 1] == '.' ==> i + 2 < tail.len() && tail[i + 2] != '/') by {
            assert(path[i + 1] == '/');
            assert(tail[i + 1] == path[i + 2]);
        }
        if tail[0] == '.' {
            assert(path[0] == '/');
            assert(path[2] != '/');
            assert(tail[1] == path[2]);
        }
        assert(is_plain(tail));
        lemma_plain_is_joined(tail);
        lemma_names_behind_slash(Seq::empty(), tail);
        assert(Seq::<char>::empty().push('/') + tail =~= path);
        assert(names_in(Seq::<char>::empty()) + names_in(tail) =~= names_in(tail));
        assert(path =~= seq!['/'] + tail);
    } else {
        lemma_plain_is_joined(path);
    }
}

/// The text behind a plain `base` and a slash in a plain `path` is there exactly where the parts of
/// `base` are the first ones of `path`, and it has the other parts of `path`.
pub proof fn lemma_plain_rest(path: Seq<char>, base: Seq<char>)
    requires
        is_plain(path),
        base.len() > 0,
        trimmed(base).len() == 0 || is_plain(trimmed(base)),
    ensures
        is_rest(relative(path, base), path, base),
{
    let front = trimmed(base);
    let root = seq![seq!['/']];
    lemma_plain_text(path);
    // A slash at the end of `base` changes nothing.
    if base.last() == '/' {
        assert(base =~= front.push('/'));
        assert(names_in(base) == names_in(front));
        if front.len() > 0 {
            assert(base[0] == front[0]);
        }
    }
    if front.len() > 0 {
        lemma_plain_text(front);
    }
    let (all, first) = (parts(path), parts(base));
    if path == front {
        assert(first == all);
        assert(all.skip(first.len() as int) =~= Seq::empty());
        assert(parts(Seq::<char>::empty()) =~= Seq::empty());
    } else if front.push('/').is_prefix_of(path) {
        let rest = path.skip(front.len() as int + 1);
        assert(path =~= front.push('/') + rest);
        lemma_names_behind_slash(front, rest);
        assert(path[front.len() as int] == '/');
        assert(path.last() != '/');
        assert(rest.len() > 0);
        assert(rest[0] == path[front.len() as int + 1]);
        assert(rest[0] != '/');
        if front.len() > 0 {
            assert(path[0] == front[0]);
        } else {
            assert(names_in(front) =~= Seq::empty());
        }
        assert(all =~= first + names_in(rest));
        assert(all.skip(first.len() as int) =~= names_in(rest));
        assert(first.is_prefix_of(all)) by {
            assert(all.subrange(0, first.len() as int) =~= first);
        }
    } else if first.is_prefix_of(all) {
        assert(first =~= all.subrange(0, first.len() as int));
        assert(first.len() > 0);
        assert(first[0] == all[0]);
        if path[0] == '/' {
            if base[0] != '/' {
                lemma_names_are_no_slashes(base, 0);
            }
        } else {
            lemma_names_are_no_slashes(path, 0);
            assert(base[0] != '/');
        }
        if front.len() == 0 {
            assert(front.push('/') =~= path.subrange(0, 1));
        } else {
            let (np, nf) = (names_in(path), names_in(front));
            assert(nf.len() <= np.len() && np.take(nf.len() as int) =~= nf) by {
                if path[0] == '/' {
                    assert forall|i: int| 0 <= i < nf.len() implies np[i] == nf[i] by {
                        assert(first[i + 1] == all[i + 1]);
                        assert(first[i + 1] == nf[i]);
                        assert(all[i + 1] == np[i]);
                    }
                }
            }
            let more = np.skip(nf.len() as int);
            assert(np =~= nf + more);
            if more.len() == 0 {
                assert(np =~= nf);
            } else {
                lemma_joined_behind(nf, more);
                assert(path =~= front + seq!['/'] + joined(more, seq!['/']));
                assert(path.subrange(0, front.len() as int + 1) =~= front.push('/'));
            }
        }
        assert(front.push('/').is_prefix_of(path) || path == front);
    }
}

/// The text of `s`, where there is one.
pub open spec fn opt_view(s: Option<String>) -> Option<Seq<char>> {
    match s {
        Some(s) => Some(s@),
        None => None,
    }
}

/// Calls `std::path::Path::strip_prefix`: the rest of `path` behind `base`, part by part, or
/// nothing where the parts of `base` are not the first ones of `path`. Repeated slashes, slashes
/// at the end and parts that are single dots make no difference to the parts. How a rest of several
/// parts is spelled where the path is not plain, and what is given for paths that the platform
/// reads in its own way, is left open.
#[verifier::external_body]
pub(crate) fn strip_prefix(path: &str, base: &str) -> (r: Option<String>)
    ensures
        is_rest(opt_view(r), path@, base@),
{
    std::path::Path::new(path).strip_prefix(base).ok().map(|p| p.to_string_lossy().to_string())
}

/// `rest` where there is one, `path` where there is none.
pub open spec fn rest_or_path(rest: Option<Seq<char>>, path: Seq<char>) -> Seq<char> {
    match rest {
        Some(rest) => rest,
        None => path,
    }
}

/// The module that the file at `rel`, a path from the root of the repository, holds.
pub open spec fn module_name(rel: Seq<char>) -> Seq<char> {
    without_suffix(separators_to_dots(without_suffix(rel, ".py"@)), ".__init__"@)
}

/// The module that the file at `rel`, a path from the root of the repository, holds.
pub fn module_of_relative(rel: &str) -> (r: String)
    ensures
        r@ == module_name(rel@),
{
    let stem = strip_suffix(rel, ".py");
    let dots = dots_for_separators(stem.as_str());
    strip_suffix(dots.as_str(), ".__init__")
}

/// The file name `name` has the extension `py`: that is what follows its last dot, and something
/// precedes that dot.
pub open spec fn has_python_extension(name: Seq<char>) -> bool {
    last_dot(name) > 0 && short_name(name) == "py"@
}

/// Whether the file name `name` has the extension `py`.
pub fn is_python_file(name: &str) -> (r: bool)
    ensures
        r == has_python_extension(name@),
{
    let (front, extension) = split_last_dot(name);
    proof {
        lemma_last_dot(name@);
    }
    match front {
        Some(front) => !is_empty(front.as_str()) && same(extension.as_str(), "py"),
        None => false,
    }
}

/// `module` is the name of the module that the file at `path` holds, in the repository at
/// `repo_root`.
pub open spec fn is_module_at(module: Seq<char>, path: Seq<char>, repo_root: Seq<char>) -> bool {
    exists|rest: Option<Seq<char>>| #[trigger]
        is_rest(rest, path, repo_root) && module == module_name(rest_or_path(rest, path))
}

/// The module that the file at `path` holds, in the repository at `repo_root`.
pub fn module_from_path(path: &str, repo_root: &str) -> (r: String)
    ensures
        is_module_at(r@, path@, repo_root@),
{
    match strip_prefix(path, repo_root) {
        Some(rest) => {
            assert(is_rest(Some(rest@), path@, repo_root@));
            module_of_relative(rest.as_str())
        },
        None => {
            assert(is_rest(None, path@, repo_root@));
            module_of_relative(path)
        },
    }
}

} // verus!
