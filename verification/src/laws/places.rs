//! Where files stand, and what is kept of them.
use crate::index::{entry_view, still_valid, text_or, CachedFile};
use crate::laws::words::{law_name_is_cut_at_its_last_dot, law_without_suffix};
use crate::parser::FileView;
use crate::paths::{
    has_python_extension, is_module_at, is_plain, is_rest, is_slashed, lemma_last_slash_is,
    lemma_names_behind_slash, lemma_plain_rest, module_name, names_in, parts, relative,
    rest_or_path,
};
use crate::text::{joined, last_dot, lemma_last_dot, qualifier, separators_to_dots};
use vstd::prelude::*;
use vstd::string::*;

verus! {

/// A file `a/b.py` holds the module `a.b`, and a file `a/__init__.py` the module `a`; a path
/// without that ending is read as it stands.
pub proof fn law_module_name(path: Seq<char>, package: Seq<char>)
    ensures
        ({
            let dots = separators_to_dots(path);
            let module = module_name(path + ".py"@);
            &&& dots == package + ".__init__"@ ==> module == package
            &&& (forall|a: Seq<char>| #[trigger] (a + ".__init__"@) != dots) ==> module == dots
            &&& (forall|a: Seq<char>| #[trigger] (a + ".py"@) != path) ==> module_name(path)
                == module
        }),
{
    let dots = separators_to_dots(path);
    law_without_suffix(path, ".py"@);
    law_without_suffix(dots, ".__init__"@);
    law_without_suffix(package, ".__init__"@);
}

/// A file name has the extension `py` where it is something, but not nothing, and `.py`.
pub proof fn law_python_extension(name: Seq<char>)
    ensures
        has_python_extension(name) <==> exists|a: Seq<char>|
            a.len() > 0 && name == #[trigger] (a + ".py"@),
{
    reveal_strlit("py");
    reveal_strlit(".py");
    lemma_last_dot(name);
    if has_python_extension(name) {
        let k = last_dot(name);
        let a = name.take(k);
        assert(name.skip(k + 1) =~= "py"@);
        assert(name =~= a + ".py"@) by {
            assert forall|i: int| 0 <= i < name.len() implies name[i] == (a + ".py"@)[i] by {
                if i > k {
                    assert(name.skip(k + 1)[i - k - 1] == "py"@[i - k - 1]);
                }
            }
        }
    }
    if exists|a: Seq<char>| a.len() > 0 && name == #[trigger] (a + ".py"@) {
        let a = choose|a: Seq<char>| a.len() > 0 && name == #[trigger] (a + ".py"@);
        assert(name =~= a + seq!['.'] + "py"@);
        law_name_is_cut_at_its_last_dot(a, "py"@);
        assert(qualifier(name) == Some(a));
        let k = last_dot(name);
        assert(name.take(k).len() == k);
    }
}

/// The parts of a path stand between its slashes; an empty one and a single dot are none. A path
/// that starts with a slash starts at the root.
pub proof fn law_parts(a: Seq<char>, b: Seq<char>, name: Seq<char>)
    ensures
        names_in(Seq::empty()).len() == 0,
        names_in(seq!['.']).len() == 0,
        name.len() > 0 && !name.contains('/') && name != seq!['.'] ==> names_in(name) == seq![name],
        names_in(a + seq!['/'] + b) == names_in(a) + names_in(b),
        parts(seq!['/'] + b) == seq![seq!['/']] + names_in(b),
        name.len() > 0 && name[0] != '/' ==> parts(name) == names_in(name),
{
    let empty = Seq::<char>::empty();
    let dot = seq!['.'];
    assert(names_in(empty) =~= Seq::empty());
    assert forall|i: int| -1 < i < dot.len() implies dot[i] != '/' by {
        assert(dot[0] == '.');
    }
    lemma_last_slash_is(dot, -1);
    assert(dot.skip(0) =~= dot);
    assert(dot.take(0) =~= empty);
    if name.len() > 0 && !name.contains('/') && name != dot {
        assert forall|i: int| -1 < i < name.len() implies name[i] != '/' by {
            assert(name.contains(name[i]));
        }
        lemma_last_slash_is(name, -1);
        assert(name.skip(0) =~= name);
        assert(name.take(0) =~= empty);
        assert(names_in(name) =~= seq![name]);
    }
    assert(a + seq!['/'] + b =~= a.push('/') + b);
    lemma_names_behind_slash(a, b);
    let rooted = seq!['/'] + b;
    assert(rooted =~= empty.push('/') + b);
    lemma_names_behind_slash(empty, b);
    assert(names_in(empty) + names_in(b) =~= names_in(b));
    assert(rooted[0] == '/');
}

/// A name that can stand between two slashes and reads the same everywhere.
pub open spec fn is_plain_name(name: Seq<char>) -> bool {
    &&& name.len() > 0
    &&& name != seq!['.']
    &&& !name.contains('/')
    &&& !name.contains('\\')
    &&& !name.contains(':')
}

/// Names with slashes between them make a plain path.
pub proof fn law_plain_path(names: Seq<Seq<char>>)
    requires
        names.len() > 0,
        forall|i: int| 0 <= i < names.len() ==> is_plain_name(#[trigger] names[i]),
    ensures
        is_plain(joined(names, seq!['/'])),
        joined(names, seq!['/'])[0] != '/',
    decreases names.len(),
{
    let path = joined(names, seq!['/']);
    let last = names.last();
    assert(is_plain_name(names[names.len() - 1]));
    assert forall|i: int| 0 <= i < last.len() implies (#[trigger] last[i]) != '/' && last[i] != '\\'
        && last[i] != ':' by {
        assert(last.contains(last[i]));
    }
    if last.len() == 1 && last[0] == '.' {
        assert(last =~= seq!['.']);
    }
    if names.len() == 1 {
        assert(path == last);
    } else {
        let front = names.drop_last();
        assert forall|i: int| 0 <= i < front.len() implies is_plain_name(#[trigger] front[i]) by {
            assert(front[i] == names[i]);
        }
        law_plain_path(front);
        let before = joined(front, seq!['/']);
        let n = before.len() as int;
        assert(path == before + seq!['/'] + last);
        assert(path.last() == last.last());
        assert forall|i: int| 0 <= i < path.len() implies (#[trigger] path[i]) != '\\' && path[i]
            != ':' by {
            if i < n {
                assert(path[i] == before[i]);
            } else if i > n {
                assert(path[i] == last[i - n - 1]);
            }
        }
        assert forall|i: int| 0 <= i < path.len() - 1 && #[trigger] path[i] == '/' implies path[i
            + 1] != '/' && (path[i + 1] == '.' ==> i + 2 < path.len() && path[i + 2] != '/') by {
            if i < n - 1 {
                assert(before[i] == '/');
                assert(path[i + 1] == before[i + 1]);
                if before[i + 1] == '.' {
                    assert(path[i + 2] == before[i + 2]);
                }
            } else if i == n - 1 {
                assert(before[i] == before.last());
            } else if i == n {
                assert(path[i + 1] == last[0]);
                if last[0] == '.' {
                    assert(last.len() > 1);
                    assert(path[i + 2] == last[1]);
                }
            } else {
                assert(path[i] == last[i - n - 1]);
            }
        }
        assert(path[0] == before[0]);
        if path[0] == '.' {
            assert(path[1] == before[1]);
        }
    }
}

/// The module of a file is found from its path below the root of the repository, whatever that
/// is; the path of a file that stands elsewhere is read as a whole.
pub proof fn law_module_at(root: Seq<char>, rel: Seq<char>, path: Seq<char>, module: Seq<char>)
    requires
        is_plain(root),
        is_plain(path),
    ensures
        path == root + seq!['/'] + rel ==> (is_module_at(module, path, root) <==> module
            == module_name(rel)),
        path == root + seq!['/'] + rel ==> (is_module_at(module, path, root.push('/')) <==> module
            == module_name(rel)),
        path != root && (forall|r: Seq<char>| #[trigger] (root + seq!['/'] + r) != path) ==> (
        is_module_at(module, path, root) <==> module == module_name(path)),
{
    lemma_plain_rest(path, root);
    assert(root.push('/').drop_last() =~= root);
    lemma_plain_rest(path, root.push('/'));
    let front = root.push('/');
    if path == root + seq!['/'] + rel {
        assert(path =~= front + rel);
        assert(path.subrange(0, front.len() as int) =~= front);
        assert(path.skip(root.len() as int + 1) =~= rel);
        assert(path != root) by {
            assert(path.len() > root.len());
        }
        assert(relative(path, root) == Some(rel));
        assert(relative(path, front) == Some(rel));
    } else if path != root && forall|r: Seq<char>| #[trigger] (root + seq!['/'] + r) != path {
        if front.is_prefix_of(path) {
            let r = path.skip(front.len() as int);
            assert(path =~= root + seq!['/'] + r);
        }
        assert(relative(path, root) is None);
    }
}

/// The module of a file is that of a path with the parts that follow those of the root, however
/// the two are written; where the parts of the root are not the first ones, that of the whole path.
pub proof fn law_module_by_parts(root: Seq<char>, path: Seq<char>, module: Seq<char>)
    requires
        is_slashed(root),
        is_slashed(path),
        is_module_at(module, path, root),
    ensures
        parts(root).is_prefix_of(parts(path)) ==> exists|rest: Seq<char>|
            module == #[trigger] module_name(rest) && parts(path) == parts(root) + parts(rest),
        !parts(root).is_prefix_of(parts(path)) ==> module == module_name(path),
{
    let rest = choose|rest: Option<Seq<char>>| #[trigger]
        is_rest(rest, path, root) && module == module_name(rest_or_path(rest, path));
    if parts(root).is_prefix_of(parts(path)) {
        assert(rest is Some);
        let (all, first) = (parts(path), parts(root));
        assert(all =~= first + all.skip(first.len() as int));
        assert(module == module_name(rest->0));
    }
}

/// What is kept of a file is what it was made of, for as long as the file has the time of change
/// that it had; at every other time, before or after, nothing is known of it.
pub proof fn law_cached(cached: CachedFile, now: u64, mtime: u64, symbols: FileView)
    ensures
        now == cached.mtime_secs ==> still_valid(entry_view(Some(cached)), now) == Some(
            cached.symbols@,
        ),
        now != cached.mtime_secs ==> still_valid(entry_view(Some(cached)), now) is None,
        still_valid(entry_view(None), now) is None,
        now == mtime ==> still_valid(Some((mtime, symbols)), now) == Some(symbols),
        now != mtime ==> still_valid(Some((mtime, symbols)), now) is None,
        entry_view(Some(cached)) == Some((cached.mtime_secs, cached.symbols@)),
{
}

/// A text that is there is taken, whatever it is, and the other one only where it is not.
pub proof fn law_text_or(text: String, otherwise: Seq<char>)
    ensures
        text_or(Some(text), otherwise) == text@,
        text_or(None, otherwise) == otherwise,
        rest_or_path(Some(text@), otherwise) == text@,
        rest_or_path(None, otherwise) == otherwise,
{
}

} // verus!
