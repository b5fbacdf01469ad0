//! Breadth-first search through callers.
use crate::names::{members, NameMap, NameSet};
use crate::text::views;
use vstd::hash_set::StringHashSet;
use vstd::prelude::*;
use vstd::string::*;

verus! {

/// `path[k + 1]` calls `path[k]`.
pub open spec fn is_step(
    callers: Map<Seq<char>, NameSet>,
    path: Seq<Seq<char>>,
    k: int,
) -> bool {
    members(callers, path[k]).contains(path[k + 1])
}

/// Each name of `path` but the first calls the one before it.
pub open spec fn is_chain(callers: Map<Seq<char>, NameSet>, path: Seq<Seq<char>>) -> bool {
    &&& path.len() > 0
    &&& forall|k: int| 0 <= k < path.len() - 1 ==> #[trigger] is_step(callers, path, k)
}

/// `path` is a chain of callers from `from` up to `to`.
pub open spec fn is_chain_between(
    callers: Map<Seq<char>, NameSet>,
    from: Seq<char>,
    to: Seq<char>,
    path: Seq<Seq<char>>,
) -> bool {
    is_chain(callers, path) && path[0] == from && path.last() == to
}

/// Some chain of callers of `steps` steps leads from `from` up to `to`.
pub open spec fn leads(
    callers: Map<Seq<char>, NameSet>,
    from: Seq<char>,
    to: Seq<char>,
    steps: nat,
) -> bool {
    exists|path: Seq<Seq<char>>|
        path.len() == steps + 1 && #[trigger] is_chain_between(callers, from, to, path)
}

/// The shortest chain of callers from `from` up to `to` has `d` steps.
pub open spec fn distance_is(
    callers: Map<Seq<char>, NameSet>,
    from: Seq<char>,
    to: Seq<char>,
    d: nat,
) -> bool {
    leads(callers, from, to, d) && forall|k: nat| k < d ==> !#[trigger] leads(callers, from, to, k)
}

/// A name that the search has come upon, how far from its start, and from which name.
pub struct Visit {
    pub name: String,
    pub depth: usize,
    pub parent: usize,
}

/// `name` was come upon no deeper than `depth`.
pub open spec fn visited_within(order: Seq<Visit>, name: Seq<char>, depth: int) -> bool {
    exists|j: int|
        0 <= j < order.len() && (#[trigger] order[j]).name@ == name && order[j].depth <= depth
}

/// Visit number `i` was made from an earlier one, of the first `opened`, which it calls.
pub open spec fn parent_fits(
    callers: Map<Seq<char>, NameSet>,
    order: Seq<Visit>,
    i: int,
    opened: int,
) -> bool {
    let p = order[i].parent;
    &&& p < i
    &&& p < opened
    &&& order[i].depth == order[p as int].depth + 1
    &&& members(callers, order[p as int].name@).contains(order[i].name@)
}

/// The callers of visit number `i` have all been come upon, at most one step deeper.
pub open spec fn is_expanded(
    callers: Map<Seq<char>, NameSet>,
    order: Seq<Visit>,
    i: int,
) -> bool {
    forall|c: Seq<char>| #[trigger]
        members(callers, order[i].name@).contains(c) ==> visited_within(
            order,
            c,
            order[i].depth + 1,
        )
}

/// The state of a breadth-first search from `start`: the visits in the order in which they were
/// made, of which the first `head` are expanded and the first `opened` at least begun.
pub open spec fn is_search(
    callers: Map<Seq<char>, NameSet>,
    start: Seq<char>,
    order: Seq<Visit>,
    seen: Set<Seq<char>>,
    head: int,
    opened: int,
) -> bool {
    &&& 0 <= head <= opened <= order.len()
    &&& order.len() > 0
    &&& order[0].name@ == start
    &&& order[0].depth == 0
    &&& forall|i: int| 0 <= i < order.len() ==> seen.contains(#[trigger] order[i].name@)
    &&& forall|x: Seq<char>| #[trigger]
        seen.contains(x) ==> exists|i: int| 0 <= i < order.len() && (#[trigger] order[i]).name@ == x
    &&& forall|i: int, j: int|
        0 <= i < j < order.len() ==> (#[trigger] order[i]).name@ != (#[trigger] order[j]).name@
    &&& forall|i: int, j: int|
        0 <= i <= j < order.len() ==> (#[trigger] order[i]).depth <= (#[trigger] order[j]).depth
    &&& forall|i: int| 0 <= i < order.len() ==> (#[trigger] order[i]).depth <= i
    &&& forall|i: int|
        1 <= i < order.len() ==> #[trigger] parent_fits(callers, order, i, opened)
    &&& forall|i: int| 0 <= i < head ==> #[trigger] is_expanded(callers, order, i)
}

/// No visit is more than one step deeper than the last one begun.
proof fn lemma_depth_bound(
    callers: Map<Seq<char>, NameSet>,
    start: Seq<char>,
    order: Seq<Visit>,
    seen: Set<Seq<char>>,
    head: int,
    opened: int,
    i: int,
)
    requires
        is_search(callers, start, order, seen, head, opened),
        0 <= i < order.len(),
        0 < opened,
    ensures
        order[i].depth <= order[opened - 1].depth + 1,
{
    if i >= 1 {
        assert(parent_fits(callers, order, i, opened));
    }
}

/// Coming upon a new caller of visit number `head` keeps the state of the search.
proof fn lemma_push_visit(
    callers: Map<Seq<char>, NameSet>,
    start: Seq<char>,
    before: Seq<Visit>,
    seen: Set<Seq<char>>,
    head: int,
    visit: Visit,
)
    requires
        is_search(callers, start, before, seen, head, head + 1),
        0 <= head < before.len(),
        !seen.contains(visit.name@),
        visit.depth == before[head].depth + 1,
        visit.parent == head,
        members(callers, before[head].name@).contains(visit.name@),
    ensures
        is_search(
            callers,
            start,
            before.push(visit),
            seen.insert(visit.name@),
            head,
            head + 1,
        ),
        forall|c: Seq<char>, d: int|
            visited_within(before, c, d) ==> #[trigger] visited_within(before.push(visit), c, d),
        visited_within(before.push(visit), visit.name@, visit.depth as int),
{
    let after = before.push(visit);
    let n = before.len() as int;
    assert(forall|i: int| 0 <= i < n ==> after[i] == before[i]);
    assert(after[n] == visit);
    assert forall|c: Seq<char>, d: int| visited_within(before, c, d) implies #[trigger] visited_within(
        after,
        c,
        d,
    ) by {
        let j = choose|j: int|
            0 <= j < before.len() && (#[trigger] before[j]).name@ == c && before[j].depth <= d;
        assert(after[j] == before[j]);
    }
    assert forall|i: int| 0 <= i < n implies (#[trigger] after[i]).depth <= visit.depth by {
        lemma_depth_bound(callers, start, before, seen, head, head + 1, i);
    }
    assert forall|x: Seq<char>| #[trigger] seen.insert(visit.name@).contains(x) implies exists|i: int|
        0 <= i < after.len() && (#[trigger] after[i]).name@ == x by {
        if x == visit.name@ {
            assert(after[n].name@ == x);
        } else {
            let i = choose|i: int| 0 <= i < before.len() && (#[trigger] before[i]).name@ == x;
            assert(after[i].name@ == x);
        }
    }
    assert forall|i: int| 1 <= i < after.len() implies #[trigger] parent_fits(
        callers,
        after,
        i,
        head + 1,
    ) by {
        if i < n {
            assert(parent_fits(callers, before, i, head + 1));
        }
    }
    assert forall|i: int| 0 <= i < head implies #[trigger] is_expanded(callers, after, i) by {
        assert(is_expanded(callers, before, i));
    }
}

/// The search before its first step.
pub(crate) fn start_search(start: &str) -> (r: (Vec<Visit>, StringHashSet))
    ensures
        forall|callers: Map<Seq<char>, NameSet>| #[trigger]
            is_search(callers, start@, r.0@, r.1@, 0, 0),
        r.0@.len() == 1,
{
    let mut order: Vec<Visit> = Vec::new();
    let mut seen = StringHashSet::new();
    order.push(Visit { name: start.to_owned(), depth: 0, parent: 0 });
    seen.insert(start.to_owned());
    (order, seen)
}

/// One step of the search: comes upon the callers of visit number `head`.
pub(crate) fn expand(
    callers: &NameMap<NameSet>,
    order: &mut Vec<Visit>,
    seen: &mut StringHashSet,
    head: usize,
    Ghost(start): Ghost<Seq<char>>,
)
    requires
        head < old(order)@.len(),
        is_search(callers@, start, old(order)@, old(seen)@, head as int, head as int),
    ensures
        is_search(callers@, start, final(order)@, final(seen)@, head + 1, head + 1),
        old(order)@.is_prefix_of(final(order)@),
{
    let current = order[head].name.clone();
    let depth: usize = order[head].depth;
    proof {
        assert forall|i: int| 1 <= i < order@.len() implies #[trigger] parent_fits(
            callers@,
            order@,
            i,
            head + 1,
        ) by {
            assert(parent_fits(callers@, order@, i, head as int));
        }
    }
    if let Some(set) = callers.get(current.as_str()) {
        let count: usize = set.len();
        let mut k: usize = 0;
        while k < count
            invariant
                k <= count == set.order().len(),
                head < order@.len(),
                order@[head as int].name@ == current@,
                order@[head as int].depth == depth,
                members(callers@, current@) == set@,
                is_search(callers@, start, order@, seen@, head as int, head + 1),
                forall|j: int|
                    0 <= j < k ==> visited_within(order@, #[trigger] set.order()[j], depth + 1),
                old(order)@.is_prefix_of(order@),
            decreases count - k,
        {
            let caller = set.get(k);
            let ghost before = order@;
            let ghost seen_before = seen@;
            if seen.insert(caller.to_owned()) {
                assert(depth <= head < order.len());
                order.push(Visit { name: caller.to_owned(), depth: depth + 1, parent: head });
                proof {
                    lemma_push_visit(
                        callers@,
                        start,
                        before,
                        seen_before,
                        head as int,
                        order@.last(),
                    );
                    assert(order@ =~= before.push(order@.last()));
                }
            } else {
                assert(seen@ =~= seen_before);
                assert(visited_within(order@, caller@, depth + 1)) by {
                    let i = choose|i: int|
                        0 <= i < order.len() && (#[trigger] order@[i]).name@ == caller@;
                    lemma_depth_bound(callers@, start, order@, seen@, head as int, head + 1, i);
                }
            }
            k += 1;
        }
        proof {
            assert forall|c: Seq<char>| members(callers@, order@[head as int].name@).contains(c) implies
                visited_within(order@, c, depth + 1) by {
                let j = choose|j: int| 0 <= j < set.order().len() && set.order()[j] == c;
                assert(set.order()[j] == c);
            }
        }
    }
    assert(is_expanded(callers@, order@, head as int));
}

/// A chain may be prolonged by a caller of its last name.
proof fn lemma_prolong(
    callers: Map<Seq<char>, NameSet>,
    from: Seq<char>,
    path: Seq<Seq<char>>,
    next: Seq<char>,
)
    requires
        is_chain_between(callers, from, path.last(), path),
        members(callers, path.last()).contains(next),
    ensures
        is_chain_between(callers, from, next, path.push(next)),
{
    let longer = path.push(next);
    assert forall|k: int| 0 <= k < longer.len() - 1 implies #[trigger] is_step(
        callers,
        longer,
        k,
    ) by {
        if k < path.len() - 1 {
            assert(is_step(callers, path, k));
        }
    }
}

/// Each visit is reached by a chain of as many steps as it is deep.
pub(crate) proof fn lemma_visit_is_reached(
    callers: Map<Seq<char>, NameSet>,
    start: Seq<char>,
    order: Seq<Visit>,
    seen: Set<Seq<char>>,
    head: int,
    i: int,
)
    requires
        is_search(callers, start, order, seen, head, head),
        0 <= i < order.len(),
    ensures
        leads(callers, start, order[i].name@, order[i].depth as nat),
    decreases i,
{
    if i == 0 {
        let path = seq![start];
        assert(is_chain_between(callers, start, order[0].name@, path));
    } else {
        assert(parent_fits(callers, order, i, head));
        let p = order[i].parent as int;
        lemma_visit_is_reached(callers, start, order, seen, head, p);
        let path = choose|path: Seq<Seq<char>>|
            path.len() == order[p].depth as nat + 1 && #[trigger] is_chain_between(
                callers,
                start,
                order[p].name@,
                path,
            );
        lemma_prolong(callers, start, path, order[i].name@);
        assert(path.push(order[i].name@).len() == order[i].depth as nat + 1);
    }
}

/// What a chain of `k` steps reaches has been come upon within `k` steps, as long as every visit
/// that is less deep than `bound` is expanded.
pub(crate) proof fn lemma_chain_is_visited(
    callers: Map<Seq<char>, NameSet>,
    start: Seq<char>,
    order: Seq<Visit>,
    seen: Set<Seq<char>>,
    head: int,
    bound: int,
    path: Seq<Seq<char>>,
    k: int,
)
    requires
        is_search(callers, start, order, seen, head, head),
        forall|i: int| head <= i < order.len() ==> (#[trigger] order[i]).depth >= bound,
        is_chain(callers, path),
        path[0] == start,
        0 <= k < path.len(),
        k <= bound,
    ensures
        visited_within(order, path[k], k),
    decreases k,
{
    if k == 0 {
        assert(order[0].name@ == path[0]);
    } else {
        lemma_chain_is_visited(callers, start, order, seen, head, bound, path, k - 1);
        let i = choose|i: int|
            0 <= i < order.len() && (#[trigger] order[i]).name@ == path[k - 1] && order[i].depth
                <= k - 1;
        assert(i < head);
        assert(is_expanded(callers, order, i));
        assert(is_step(callers, path, k - 1));
        assert(visited_within(order, path[k], order[i].depth + 1));
        let j = choose|j: int|
            0 <= j < order.len() && (#[trigger] order[j]).name@ == path[k] && order[j].depth
                <= order[i].depth + 1;
        assert(order[j].depth <= k);
    }
}

/// A visit is as deep as its name is far from the start.
pub(crate) proof fn lemma_depth_is_distance(
    callers: Map<Seq<char>, NameSet>,
    start: Seq<char>,
    order: Seq<Visit>,
    seen: Set<Seq<char>>,
    head: int,
    i: int,
)
    requires
        is_search(callers, start, order, seen, head, head),
        0 <= i < order.len(),
    ensures
        distance_is(callers, start, order[i].name@, order[i].depth as nat),
{
    lemma_visit_is_reached(callers, start, order, seen, head, i);
    let d = order[i].depth as int;
    assert forall|j: int| head <= j < order.len() implies (#[trigger] order[j]).depth >= d - 1 by {
        if head > 0 {
            lemma_depth_bound(callers, start, order, seen, head, head, i);
            assert(order[head - 1].depth <= order[j].depth);
        } else if i > 0 {
            assert(parent_fits(callers, order, i, head));
        }
    }
    assert forall|k: nat| k < d implies !#[trigger] leads(callers, start, order[i].name@, k) by {
        if leads(callers, start, order[i].name@, k) {
            let path = choose|path: Seq<Seq<char>>|
                path.len() == k + 1 && #[trigger] is_chain_between(
                    callers,
                    start,
                    order[i].name@,
                    path,
                );
            lemma_chain_is_visited(callers, start, order, seen, head, d - 1, path, k as int);
            let j = choose|j: int|
                0 <= j < order.len() && (#[trigger] order[j]).name@ == path[k as int]
                    && order[j].depth <= k;
            assert(order[j].name@ == order[i].name@);
            assert(i == j);
        }
    }
}

/// What is `d` steps away has been come upon at depth `d`, as long as every visit that is less
/// deep than `d` is expanded.
pub(crate) proof fn lemma_distance_is_depth(
    callers: Map<Seq<char>, NameSet>,
    start: Seq<char>,
    order: Seq<Visit>,
    seen: Set<Seq<char>>,
    head: int,
    name: Seq<char>,
    d: nat,
) -> (i: int)
    requires
        is_search(callers, start, order, seen, head, head),
        forall|i: int| head <= i < order.len() ==> (#[trigger] order[i]).depth >= d,
        distance_is(callers, start, name, d),
    ensures
        0 <= i < order.len(),
        order[i].name@ == name,
        order[i].depth == d,
{
    let path = choose|path: Seq<Seq<char>>|
        path.len() == d + 1 && #[trigger] is_chain_between(callers, start, name, path);
    lemma_chain_is_visited(callers, start, order, seen, head, d as int, path, d as int);
    let i = choose|i: int|
        0 <= i < order.len() && (#[trigger] order[i]).name@ == path[d as int] && order[i].depth <= d;
    lemma_visit_is_reached(callers, start, order, seen, head, i);
    assert(leads(callers, start, name, order[i].depth as nat));
    i
}

/// A search that has expanded every visit has come upon everything that a chain reaches.
pub(crate) proof fn lemma_finished_search(
    callers: Map<Seq<char>, NameSet>,
    start: Seq<char>,
    order: Seq<Visit>,
    seen: Set<Seq<char>>,
    name: Seq<char>,
    steps: nat,
) -> (i: int)
    requires
        is_search(callers, start, order, seen, order.len() as int, order.len() as int),
        leads(callers, start, name, steps),
    ensures
        0 <= i < order.len(),
        order[i].name@ == name,
{
    let path = choose|path: Seq<Seq<char>>|
        path.len() == steps + 1 && #[trigger] is_chain_between(callers, start, name, path);
    let k = steps as int;
    lemma_chain_is_visited(callers, start, order, seen, order.len() as int, k, path, k);
    choose|i: int| 0 <= i < order.len() && (#[trigger] order[i]).name@ == path[k] && order[i].depth <= k
}

/// The chain of callers by which the search came upon visit number `i`.
pub(crate) fn trace_back(
    callers: &NameMap<NameSet>,
    order: &Vec<Visit>,
    i: usize,
    Ghost(start): Ghost<Seq<char>>,
    Ghost(seen): Ghost<Set<Seq<char>>>,
    Ghost(head): Ghost<int>,
) -> (r: Vec<String>)
    requires
        is_search(callers@, start, order@, seen, head, head),
        i < order@.len(),
    ensures
        is_chain_between(callers@, start, order@[i as int].name@, views(r@)),
        r@.len() == order@[i as int].depth + 1,
{
    let mut back: Vec<usize> = Vec::new();
    let mut at: usize = i;
    while at != 0
        invariant
            is_search(callers@, start, order@, seen, head, head),
            i < order@.len(),
            at <= i,
            back@.len() + order@[at as int].depth == order@[i as int].depth,
            forall|k: int| 0 <= k < back@.len() ==> 0 < #[trigger] back@[k] <= i,
            back@.len() == 0 ==> at == i,
            back@.len() > 0 ==> back@[0] == i && order@[back@.last() as int].parent == at,
            forall|k: int|
                0 <= k < back@.len() - 1 ==> order@[#[trigger] back@[k] as int].parent == back@[k
                    + 1],
        decreases at,
    {
        assert(parent_fits(callers@, order@, at as int, head));
        back.push(at);
        at = order[at].parent;
    }
    let mut r: Vec<String> = Vec::new();
    r.push(order[0].name.clone());
    let mut left: usize = back.len();
    assert(views(r@) =~= seq![start]);
    while left > 0
        invariant
            is_search(callers@, start, order@, seen, head, head),
            i < order@.len(),
            left <= back@.len(),
            back@.len() == order@[i as int].depth,
            forall|k: int| 0 <= k < back@.len() ==> 0 < #[trigger] back@[k] <= i,
            back@.len() == 0 ==> i == 0,
            back@.len() > 0 ==> back@[0] == i && order@[back@.last() as int].parent == 0,
            forall|k: int|
                0 <= k < back@.len() - 1 ==> order@[#[trigger] back@[k] as int].parent == back@[k
                    + 1],
            r@.len() + left == back@.len() + 1,
            is_chain_between(
                callers@,
                start,
                order@[if left == back@.len() {
                    0
                } else {
                    back@[left as int] as int
                }].name@,
                views(r@),
            ),
        decreases left,
    {
        left -= 1;
        let next = back[left];
        let ghost path = views(r@);
        r.push(order[next].name.clone());
        proof {
            assert(parent_fits(callers@, order@, next as int, head));
            lemma_prolong(callers@, start, path, order@[next as int].name@);
            assert(views(r@) =~= path.push(order@[next as int].name@));
        }
    }
    r
}

} // verus!
