//! Counts in ascending order.
use vstd::prelude::*;

verus! {

/// `s` ascends.
pub open spec fn is_ascending(s: Seq<usize>) -> bool {
    forall|i: int, j: int| 0 <= i <= j < s.len() ==> s[i] <= s[j]
}

/// How many elements of `s` are at most `limit`.
pub open spec fn count_up_to(s: Seq<usize>, limit: usize) -> nat
    decreases s.len(),
{
    if s.len() == 0 {
        0
    } else {
        count_up_to(s.drop_last(), limit) + if s.last() <= limit {
            1nat
        } else {
            0
        }
    }
}

/// Merges two ascending sequences into one.
fn merge(a: &Vec<usize>, b: &Vec<usize>) -> (r: Vec<usize>)
    requires
        is_ascending(a@),
        is_ascending(b@),
        a@.len() + b@.len() <= usize::MAX,
    ensures
        is_ascending(r@),
        r@.to_multiset() == a@.to_multiset().add(b@.to_multiset()),
        r@.len() == a@.len() + b@.len(),
{
    broadcast use vstd::seq_lib::group_to_multiset_ensures;

    let mut r: Vec<usize> = Vec::new();
    let mut i: usize = 0;
    let mut j: usize = 0;
    assert(r@.to_multiset() =~= a@.take(0).to_multiset().add(b@.take(0).to_multiset()));
    while i < a.len() || j < b.len()
        invariant
            i <= a@.len(),
            j <= b@.len(),
            a@.len() + b@.len() <= usize::MAX,
            r@.len() == i + j,
            is_ascending(a@),
            is_ascending(b@),
            is_ascending(r@),
            forall|k: int, l: int| 0 <= k < r@.len() && i <= l < a@.len() ==> r@[k] <= a@[l],
            forall|k: int, l: int| 0 <= k < r@.len() && j <= l < b@.len() ==> r@[k] <= b@[l],
            r@.to_multiset() == a@.take(i as int).to_multiset().add(
                b@.take(j as int).to_multiset(),
            ),
        decreases a@.len() + b@.len() - i - j,
    {
        let ghost before = r@;
        if j == b.len() || (i < a.len() && a[i] <= b[j]) {
            let ghost (x, y) = (a@.take(i as int), b@.take(j as int));
            r.push(a[i]);
            i += 1;
            proof {
                assert(a@.take(i as int) =~= x.push(r@.last()));
                assert(r@ =~= before.push(r@.last()));
                vstd::seq_lib::to_multiset_build(x, r@.last());
                vstd::seq_lib::to_multiset_build(before, r@.last());
                assert(r@.to_multiset() =~= x.push(r@.last()).to_multiset().add(y.to_multiset()));
            }
        } else {
            let ghost (x, y) = (a@.take(i as int), b@.take(j as int));
            r.push(b[j]);
            j += 1;
            proof {
                assert(b@.take(j as int) =~= y.push(r@.last()));
                assert(r@ =~= before.push(r@.last()));
                vstd::seq_lib::to_multiset_build(y, r@.last());
                vstd::seq_lib::to_multiset_build(before, r@.last());
                assert(r@.to_multiset() =~= x.to_multiset().add(y.push(r@.last()).to_multiset()));
            }
        }
    }
    assert(a@.take(i as int) =~= a@);
    assert(b@.take(j as int) =~= b@);
    r
}

/// The elements of `v` in ascending order.
pub fn ascending(v: &Vec<usize>) -> (r: Vec<usize>)
    ensures
        is_ascending(r@),
        r@.to_multiset() == v@.to_multiset(),
        r@.len() == v@.len(),
    decreases v@.len(),
{
    broadcast use vstd::seq_lib::group_to_multiset_ensures;

    if v.len() <= 1 {
        let mut r: Vec<usize> = Vec::new();
        if v.len() == 1 {
            r.push(v[0]);
        }
        assert(r@ =~= v@);
        return r;
    }
    let half: usize = v.len() / 2;
    let mut low: Vec<usize> = Vec::new();
    let mut high: Vec<usize> = Vec::new();
    let mut i: usize = 0;
    while i < v.len()
        invariant
            i <= v@.len(),
            half == v@.len() / 2,
            low@ == v@.take(if i < half {
                i as int
            } else {
                half as int
            }),
            high@ == v@.subrange(
                half as int,
                if i < half {
                    half as int
                } else {
                    i as int
                },
            ),
        decreases v@.len() - i,
    {
        if i < half {
            low.push(v[i]);
        } else {
            high.push(v[i]);
        }
        i += 1;
        assert(low@ =~= v@.take(if i < half {
            i as int
        } else {
            half as int
        }));
        assert(high@ =~= v@.subrange(
            half as int,
            if i < half {
                half as int
            } else {
                i as int
            },
        ));
    }
    proof {
        assert(v@ =~= low@ + high@);
        vstd::seq_lib::lemma_multiset_commutative(low@, high@);
    }
    let low = ascending(&low);
    let high = ascending(&high);
    merge(&low, &high)
}

/// How many elements of an ascending sequence come before the first that exceeds `limit`.
pub fn rank(sorted: &Vec<usize>, limit: usize) -> (r: usize)
    requires
        is_ascending(sorted@),
    ensures
        r == count_up_to(sorted@, limit),
        r <= sorted@.len(),
{
    let mut low: usize = 0;
    let mut high: usize = sorted.len();
    while low < high
        invariant
            low <= high <= sorted@.len(),
            is_ascending(sorted@),
            forall|k: int| 0 <= k < low ==> sorted@[k] <= limit,
            forall|k: int| high <= k < sorted@.len() ==> sorted@[k] > limit,
        decreases high - low,
    {
        let middle: usize = low + (high - low) / 2;
        if sorted[middle] <= limit {
            low = middle + 1;
        } else {
            high = middle;
        }
    }
    proof {
        lemma_count_split(sorted@, limit, low as int);
    }
    low
}

/// There are no more elements up to a limit than there are elements.
pub proof fn lemma_count_up_to(s: Seq<usize>, limit: usize)
    ensures
        count_up_to(s, limit) <= s.len(),
    decreases s.len(),
{
    if s.len() > 0 {
        lemma_count_up_to(s.drop_last(), limit);
    }
}

/// A higher limit leaves out no element that a lower one counts.
pub proof fn lemma_count_up_to_keeps_order(s: Seq<usize>, low: usize, high: usize)
    requires
        low <= high,
    ensures
        count_up_to(s, low) <= count_up_to(s, high),
    decreases s.len(),
{
    if s.len() > 0 {
        lemma_count_up_to_keeps_order(s.drop_last(), low, high);
    }
}

/// Where the elements up to a limit come before all others, they end at their count.
pub proof fn lemma_count_split(s: Seq<usize>, limit: usize, at: int)
    requires
        0 <= at <= s.len(),
        forall|k: int| 0 <= k < at ==> s[k] <= limit,
        forall|k: int| at <= k < s.len() ==> s[k] > limit,
    ensures
        count_up_to(s, limit) == at,
    decreases s.len(),
{
    if s.len() > 0 {
        if at == s.len() {
            lemma_count_split(s.drop_last(), limit, at - 1);
        } else {
            lemma_count_split(s.drop_last(), limit, at);
        }
    }
}

} // verus!
