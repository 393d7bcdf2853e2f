//! Counting the edges of a list that satisfy a predicate.

use vstd::prelude::*;
use crate::workflow::workflow::edges_at;

verus! {

/// How many of the edges in `s` satisfy `p`.
pub open spec fn count_where(s: Seq<usize>, p: spec_fn(usize) -> bool) -> nat
    decreases s.len(),
{
    if s.len() == 0 {
        0
    } else {
        count_where(s.drop_last(), p) + if p(s.last()) {
            1nat
        } else {
            0nat
        }
    }
}

pub proof fn lemma_count_ext(s: Seq<usize>, p: spec_fn(usize) -> bool, q: spec_fn(usize) -> bool)
    requires
        forall|i: int| 0 <= i < s.len() ==> p(#[trigger] s[i]) == q(s[i]),
    ensures
        count_where(s, p) == count_where(s, q),
    decreases s.len(),
{
    if s.len() > 0 {
        lemma_count_ext(s.drop_last(), p, q);
    }
}

pub proof fn lemma_count_split(
    s: Seq<usize>,
    p: spec_fn(usize) -> bool,
    q: spec_fn(usize) -> bool,
    r: spec_fn(usize) -> bool,
)
    requires
        forall|i: int|
            0 <= i < s.len() ==> p(#[trigger] s[i]) == (q(s[i]) || r(s[i])) && !(q(s[i]) && r(
                s[i],
            )),
    ensures
        count_where(s, p) == count_where(s, q) + count_where(s, r),
    decreases s.len(),
{
    if s.len() > 0 {
        lemma_count_split(s.drop_last(), p, q, r);
    }
}

pub proof fn lemma_count_le(s: Seq<usize>, p: spec_fn(usize) -> bool, q: spec_fn(usize) -> bool)
    requires
        forall|i: int| 0 <= i < s.len() && p(#[trigger] s[i]) ==> q(s[i]),
    ensures
        count_where(s, p) <= count_where(s, q),
    decreases s.len(),
{
    if s.len() > 0 {
        lemma_count_le(s.drop_last(), p, q);
    }
}

pub proof fn lemma_count_zero(s: Seq<usize>, p: spec_fn(usize) -> bool)
    requires
        count_where(s, p) == 0,
    ensures
        forall|i: int| 0 <= i < s.len() ==> !p(#[trigger] s[i]),
    decreases s.len(),
{
    if s.len() > 0 {
        lemma_count_zero(s.drop_last(), p);
        assert forall|i: int| 0 <= i < s.len() implies !p(#[trigger] s[i]) by {
            if i < s.len() - 1 {
                assert(s.drop_last()[i] == s[i]);
            }
        }
    }
}

pub proof fn lemma_count_all(s: Seq<usize>, p: spec_fn(usize) -> bool)
    requires
        forall|i: int| 0 <= i < s.len() ==> p(#[trigger] s[i]),
    ensures
        count_where(s, p) == s.len(),
    decreases s.len(),
{
    if s.len() > 0 {
        lemma_count_all(s.drop_last(), p);
    }
}

pub proof fn lemma_count_take(s: Seq<usize>, p: spec_fn(usize) -> bool, j: int)
    requires
        0 <= j < s.len(),
    ensures
        count_where(s.take(j + 1), p) == count_where(s.take(j), p) + if p(s[j]) {
            1nat
        } else {
            0nat
        },
{
    assert(s.take(j + 1).drop_last() =~= s.take(j));
}

pub proof fn lemma_count_take_le(s: Seq<usize>, p: spec_fn(usize) -> bool, j: int)
    requires
        0 <= j <= s.len(),
    ensures
        count_where(s.take(j), p) <= count_where(s, p),
    decreases s.len() - j,
{
    if j < s.len() {
        lemma_count_take(s, p, j);
        lemma_count_take_le(s, p, j + 1);
    } else {
        assert(s.take(j) =~= s);
    }
}

pub proof fn lemma_count_push(s: Seq<usize>, p: spec_fn(usize) -> bool, x: usize)
    ensures
        count_where(s.push(x), p) == count_where(s, p) + if p(x) {
            1nat
        } else {
            0nat
        },
{
    assert(s.push(x).drop_last() =~= s);
}

/// The edges whose end (in `ends`) is node `i`.
pub open spec fn ends_at(ends: Seq<Option<usize>>, i: usize) -> spec_fn(usize) -> bool {
    |e: usize| ends[e as int] == Some(i)
}

/// Every edge listed at node `i` is among the first `k` and ends there.
pub proof fn lemma_edges_at_members(ends: Seq<Option<usize>>, i: usize, k: int)
    requires
        0 <= k <= ends.len(),
        ends.len() <= usize::MAX,
    ensures
        forall|t: int|
            0 <= t < edges_at(ends, i, k).len() ==> #[trigger] edges_at(ends, i, k)[t] < k && ends[edges_at(
                ends,
                i,
                k,
            )[t] as int] == Some(i),
        edges_at(ends, i, k).no_duplicates(),
    decreases k,
{
    if k > 0 {
        lemma_edges_at_members(ends, i, k - 1);
        let a = edges_at(ends, i, k - 1);
        let b = edges_at(ends, i, k);
        if ends[k - 1] == Some(i) {
            assert(b == a.push((k - 1) as usize));
        } else {
            assert(b =~= a);
        }
    }
}

/// Every one of the first `k` edges that ends at node `i` is listed there.
pub proof fn lemma_edges_at_complete(ends: Seq<Option<usize>>, i: usize, k: int, e: int)
    requires
        0 <= e < k <= ends.len(),
        ends[e] == Some(i),
    ensures
        edges_at(ends, i, k).contains(e as usize),
    decreases k,
{
    let a = edges_at(ends, i, k - 1);
    if e == k - 1 {
        assert(edges_at(ends, i, k)[a.len() as int] == e as usize);
    } else {
        lemma_edges_at_complete(ends, i, k - 1, e);
        let t = choose|t: int| 0 <= t < a.len() && a[t] == e as usize;
        if ends[k - 1] == Some(i) {
            assert(edges_at(ends, i, k)[t] == e as usize);
        } else {
            assert(edges_at(ends, i, k) =~= a);
        }
    }
}

/// The edges from `x` to `v` counted from either end give one number.
pub proof fn lemma_edges_at_swap(
    src: Seq<Option<usize>>,
    dst: Seq<Option<usize>>,
    x: usize,
    v: usize,
    k: int,
)
    requires
        0 <= k <= src.len(),
        src.len() == dst.len(),
        src.len() <= usize::MAX,
    ensures
        count_where(edges_at(src, x, k), ends_at(dst, v)) == count_where(
            edges_at(dst, v, k),
            ends_at(src, x),
        ),
    decreases k,
{
    if k > 0 {
        lemma_edges_at_swap(src, dst, x, v, k - 1);
        let p = ends_at(dst, v);
        let q = ends_at(src, x);
        let a = edges_at(src, x, k - 1);
        let b = edges_at(dst, v, k - 1);
        let y = (k - 1) as usize;
        if src[k - 1] == Some(x) {
            assert(edges_at(src, x, k) == a.push(y));
            lemma_count_push(a, p, y);
        } else {
            assert(edges_at(src, x, k) =~= a);
        }
        if dst[k - 1] == Some(v) {
            assert(edges_at(dst, v, k) == b.push(y));
            lemma_count_push(b, q, y);
        } else {
            assert(edges_at(dst, v, k) =~= b);
        }
    }
}

pub proof fn lemma_to_set_push(s: Seq<usize>, x: usize)
    ensures
        s.push(x).to_set() == s.to_set().insert(x),
{
    let t = s.push(x);
    assert forall|a: usize| t.to_set().contains(a) <==> s.to_set().insert(x).contains(a) by {
        if t.contains(a) {
            let i = choose|i: int| 0 <= i < t.len() && t[i] == a;
            if i < s.len() {
                assert(s[i] == a);
            }
        }
        if s.contains(a) {
            let i = choose|i: int| 0 <= i < s.len() && s[i] == a;
            assert(t[i] == a);
        }
        if a == x {
            assert(t[s.len() as int] == a);
        }
    }
    assert(t.to_set() =~= s.to_set().insert(x));
}

pub proof fn lemma_to_set_drop_last(s: Seq<usize>)
    requires
        s.len() > 0,
    ensures
        s.to_set() == s.drop_last().to_set().insert(s.last()),
{
    lemma_to_set_push(s.drop_last(), s.last());
    assert(s.drop_last().push(s.last()) =~= s);
}

pub proof fn lemma_to_set_empty(s: Seq<usize>)
    requires
        s.len() == 0,
    ensures
        s.to_set() == Set::<usize>::empty(),
{
    assert(s.to_set() =~= Set::<usize>::empty());
}

} // verus!
