//! Names and paths as sequences of characters: the few string operations that the analysis is
//! built from, each with the sequence it computes.
use vstd::prelude::*;
use vstd::string::*;

verus! {

/// `str`'s `==`: true exactly when both texts hold the same characters.
pub assume_specification[ <str as PartialEq>::eq ](a: &str, b: &str) -> (r: bool)
    ensures
        r == (a@ == b@),
;

/// `String::push`: appends the given character to the end of the string.
pub assume_specification[ String::push ](s: &mut String, c: char)
    ensures
        final(s)@ == old(s)@.push(c),
;

/// `a` and `b` joined by a dot.
pub open spec fn dotted(a: Seq<char>, b: Seq<char>) -> Seq<char> {
    a + seq!['.'] + b
}

/// The index of the last dot in `s`, or `-1` where `s` has none.
pub open spec fn last_dot(s: Seq<char>) -> int
    decreases s.len(),
{
    if s.len() == 0 {
        -1
    } else if s.last() == '.' {
        s.len() - 1
    } else {
        last_dot(s.drop_last())
    }
}

/// What follows the last dot of `s`; all of `s` where it has no dot.
pub open spec fn short_name(s: Seq<char>) -> Seq<char> {
    s.skip(last_dot(s) + 1)
}

/// What precedes the last dot of `s`, where it has one.
pub open spec fn qualifier(s: Seq<char>) -> Option<Seq<char>> {
    if last_dot(s) < 0 {
        None
    } else {
        Some(s.take(last_dot(s)))
    }
}

/// `part` stands somewhere in `s`, as an unbroken run.
pub open spec fn has_infix(s: Seq<char>, part: Seq<char>) -> bool {
    exists|i: int| infix_at(s, part, i)
}

/// `part` stands in `s` at index `i`.
pub open spec fn infix_at(s: Seq<char>, part: Seq<char>, i: int) -> bool {
    0 <= i && i + part.len() <= s.len() && s.subrange(i, i + part.len()) == part
}

/// `s` without its ending `suffix`; `s` itself where it does not end so.
pub open spec fn without_suffix(s: Seq<char>, suffix: Seq<char>) -> Seq<char> {
    if suffix.is_suffix_of(s) {
        s.take(s.len() - suffix.len())
    } else {
        s
    }
}

/// `s` without its beginning `prefix`; `s` itself where it does not begin so.
pub open spec fn without_prefix(s: Seq<char>, prefix: Seq<char>) -> Seq<char> {
    if prefix.is_prefix_of(s) {
        s.skip(prefix.len() as int)
    } else {
        s
    }
}

/// A path separator, of either kind.
pub open spec fn is_separator(c: char) -> bool {
    c == '/' || c == '\\'
}

/// `path` with a dot for each path separator.
pub open spec fn separators_to_dots(path: Seq<char>) -> Seq<char> {
    path.map_values(
        |c: char|
            if is_separator(c) {
                '.'
            } else {
                c
            },
    )
}

/// `parts` joined by `separator`.
pub open spec fn joined(parts: Seq<Seq<char>>, separator: Seq<char>) -> Seq<char>
    decreases parts.len(),
{
    if parts.len() == 0 {
        Seq::empty()
    } else if parts.len() == 1 {
        parts[0]
    } else {
        joined(parts.drop_last(), separator) + separator + parts.last()
    }
}

/// The characters that each string of `v` holds.
pub open spec fn views(v: Seq<String>) -> Seq<Seq<char>> {
    v.map_values(|s: String| s@)
}

/// Where the last dot stands.
pub proof fn lemma_last_dot(s: Seq<char>)
    ensures
        -1 <= last_dot(s) < s.len(),
        last_dot(s) >= 0 ==> s[last_dot(s)] == '.',
        forall|i: int| last_dot(s) < i < s.len() ==> s[i] != '.',
        s.contains('.') <==> last_dot(s) >= 0,
    decreases s.len(),
{
    if s.len() > 0 && s.last() != '.' {
        let front = s.drop_last();
        lemma_last_dot(front);
        assert forall|i: int| last_dot(s) < i < s.len() implies s[i] != '.' by {
            if i < front.len() {
                assert(front[i] == s[i]);
            }
        }
        if s.contains('.') {
            let i = choose|i: int| 0 <= i < s.len() && s[i] == '.';
            assert(front[i] == '.');
        }
    }
    if last_dot(s) >= 0 {
        assert(s.contains('.'));
    }
}

/// A position that holds a dot, with none after it, is the last dot.
pub proof fn lemma_last_dot_is(s: Seq<char>, k: int)
    requires
        -1 <= k < s.len(),
        k >= 0 ==> s[k] == '.',
        forall|i: int| k < i < s.len() ==> s[i] != '.',
    ensures
        last_dot(s) == k,
{
    lemma_last_dot(s);
    if last_dot(s) < k {
        assert(s[k] != '.');
    }
}

/// Whether `a` and `b` hold the same text.
pub fn same(a: &str, b: &str) -> (r: bool)
    ensures
        r == (a@ == b@),
{
    *a == *b
}

/// Whether `s` holds nothing.
pub fn is_empty(s: &str) -> (r: bool)
    ensures
        r == (s@.len() == 0),
{
    proof {
        reveal_strlit("");
        assert(s@.len() == 0 ==> s@ =~= ""@);
    }
    same(s, "")
}

/// The characters of `s`, in order.
pub fn char_vec(s: &str) -> (r: Vec<char>)
    ensures
        r@ == s@,
{
    let mut r: Vec<char> = Vec::new();
    for c in it: s.chars()
        invariant
            it.seq() == s@,
            r@ == s@.take(it.index()),
    {
        r.push(c);
    }
    assert(s@.take(s@.len() as int) =~= s@);
    r
}

/// The text that `from..to` of `chars` spells.
pub fn string_of(chars: &Vec<char>, from: usize, to: usize) -> (r: String)
    requires
        from <= to <= chars@.len(),
    ensures
        r@ == chars@.subrange(from as int, to as int),
{
    let mut r = String::new();
    let mut i: usize = from;
    while i < to
        invariant
            from <= i <= to <= chars@.len(),
            r@ == chars@.subrange(from as int, i as int),
        decreases to - i,
    {
        r.push(chars[i]);
        i += 1;
        assert(r@ =~= chars@.subrange(from as int, i as int));
    }
    r
}

/// `a.b`.
pub fn join_dotted(a: &str, b: &str) -> (r: String)
    ensures
        r@ == dotted(a@, b@),
{
    let mut r = a.to_owned();
    r.push('.');
    r.append(b);
    assert(r@ =~= dotted(a@, b@));
    r
}

/// Splits `s` at its last dot: what precedes the dot, where there is one, and what follows it.
pub fn split_last_dot(s: &str) -> (r: (Option<String>, String))
    ensures
        r.1@ == short_name(s@),
        match r.0 {
            Some(q) => qualifier(s@) == Some(q@),
            None => qualifier(s@) is None,
        },
{
    let chars = char_vec(s);
    let mut k: usize = chars.len();
    while k > 0 && chars[k - 1] != '.'
        invariant
            k <= chars@.len(),
            forall|i: int| k <= i < chars@.len() ==> chars@[i] != '.',
        decreases k,
    {
        k -= 1;
    }
    proof {
        lemma_last_dot_is(s@, k - 1);
    }
    let rest = string_of(&chars, k, chars.len());
    assert(rest@ =~= short_name(s@));
    if k == 0 {
        (None, rest)
    } else {
        let front = string_of(&chars, 0, k - 1);
        assert(front@ =~= s@.take(k - 1));
        (Some(front), rest)
    }
}

/// Whether `c` occurs in `s`.
pub fn has_char(s: &str, c: char) -> (r: bool)
    ensures
        r == s@.contains(c),
{
    let chars = char_vec(s);
    let mut i: usize = 0;
    while i < chars.len()
        invariant
            i <= chars@.len(),
            chars@ == s@,
            forall|k: int| 0 <= k < i ==> chars@[k] != c,
        decreases chars@.len() - i,
    {
        if chars[i] == c {
            assert(s@[i as int] == c);
            return true;
        }
        i += 1;
    }
    false
}

/// Whether `part` stands in `s` at index `at`.
fn matches_at(s: &Vec<char>, part: &Vec<char>, at: usize) -> (r: bool)
    requires
        at + part@.len() <= s@.len(),
    ensures
        r == infix_at(s@, part@, at as int),
{
    let size: usize = s.len();
    let mut i: usize = 0;
    while i < part.len()
        invariant
            i <= part@.len(),
            at + part@.len() <= s@.len() == size,
            forall|k: int| 0 <= k < i ==> s@[at + k] == part@[k],
        decreases part@.len() - i,
    {
        if s[at + i] != part[i] {
            proof {
                let cut = s@.subrange(at as int, at + part@.len());
                assert(cut[i as int] != part@[i as int]);
            }
            return false;
        }
        i += 1;
    }
    assert(s@.subrange(at as int, at + part@.len()) =~= part@);
    true
}

/// Whether `s` ends with `suffix`.
pub fn ends_with(s: &str, suffix: &str) -> (r: bool)
    ensures
        r == suffix@.is_suffix_of(s@),
{
    let chars = char_vec(s);
    let tail = char_vec(suffix);
    if tail.len() > chars.len() {
        return false;
    }
    let at: usize = chars.len() - tail.len();
    matches_at(&chars, &tail, at)
}

/// Whether `s` starts with `prefix`.
pub fn starts_with(s: &str, prefix: &str) -> (r: bool)
    ensures
        r == prefix@.is_prefix_of(s@),
{
    let chars = char_vec(s);
    let head = char_vec(prefix);
    if head.len() > chars.len() {
        return false;
    }
    matches_at(&chars, &head, 0)
}

/// Whether `part` stands somewhere in `s`.
pub fn contains(s: &str, part: &str) -> (r: bool)
    ensures
        r == has_infix(s@, part@),
{
    let chars = char_vec(s);
    let wanted = char_vec(part);
    if wanted.len() > chars.len() {
        return false;
    }
    let last: usize = chars.len() - wanted.len();
    let mut i: usize = 0;
    while i <= last
        invariant
            chars@ == s@,
            wanted@ == part@,
            last + wanted@.len() == chars@.len(),
            forall|k: int| 0 <= k < i ==> !infix_at(s@, part@, k),
        decreases last + 1 - i,
    {
        if matches_at(&chars, &wanted, i) {
            return true;
        }
        if i == last {
            assert forall|k: int| !infix_at(s@, part@, k) by {}
            return false;
        }
        i += 1;
    }
    false
}

/// `s` without its ending `suffix`; `s` itself where it does not end so.
pub fn strip_suffix(s: &str, suffix: &str) -> (r: String)
    ensures
        r@ == without_suffix(s@, suffix@),
{
    let chars = char_vec(s);
    let tail = char_vec(suffix);
    if ends_with(s, suffix) {
        let r = string_of(&chars, 0, chars.len() - tail.len());
        assert(r@ =~= s@.take(s@.len() - suffix@.len()));
        r
    } else {
        s.to_owned()
    }
}

/// `s` without its beginning `prefix`; `s` itself where it does not begin so.
pub fn strip_start(s: &str, prefix: &str) -> (r: String)
    ensures
        r@ == without_prefix(s@, prefix@),
{
    if starts_with(s, prefix) {
        let chars = char_vec(s);
        let head = char_vec(prefix);
        let r = string_of(&chars, head.len(), chars.len());
        assert(r@ =~= s@.skip(prefix@.len() as int));
        r
    } else {
        s.to_owned()
    }
}

/// `path` with a dot for each path separator.
pub fn dots_for_separators(path: &str) -> (r: String)
    ensures
        r@ == separators_to_dots(path@),
{
    let chars = char_vec(path);
    let mut r = String::new();
    let mut i: usize = 0;
    while i < chars.len()
        invariant
            i <= chars@.len(),
            chars@ == path@,
            r@ == separators_to_dots(path@).take(i as int),
        decreases chars@.len() - i,
    {
        let c = chars[i];
        if c == '/' || c == '\\' {
            r.push('.');
        } else {
            r.push(c);
        }
        i += 1;
        assert(r@ =~= separators_to_dots(path@).take(i as int));
    }
    assert(r@ =~= separators_to_dots(path@));
    r
}

/// The strings of `parts`, joined by `separator`.
pub fn join(parts: &Vec<String>, separator: &str) -> (r: String)
    ensures
        r@ == joined(views(parts@), separator@),
{
    let mut r = String::new();
    let mut i: usize = 0;
    while i < parts.len()
        invariant
            i <= parts@.len(),
            r@ == joined(views(parts@).take(i as int), separator@),
        decreases parts@.len() - i,
    {
        let ghost done = views(parts@).take(i + 1);
        assert(done.drop_last() =~= views(parts@).take(i as int));
        assert(done.last() == parts@[i as int]@);
        if i > 0 {
            r.append(separator);
        }
        r.append(parts[i].as_str());
        assert(r@ =~= joined(done, separator@));
        i += 1;
    }
    assert(views(parts@).take(i as int) =~= views(parts@));
    r
}

} // verus!
