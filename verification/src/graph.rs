use vstd::prelude::*;

verus! {

/// How many times `x` occurs in `s`.
pub open spec fn occurrences(s: Seq<usize>, x: usize) -> nat
    decreases s.len(),
{
    if s.len() == 0 {
        0
    } else {
        occurrences(s.drop_last(), x) + if s.last() == x { 1nat } else { 0nat }
    }
}

/// How many edges point at `x`, over all the successor lists of a graph.
pub open spec fn in_degree(lists: Seq<Seq<usize>>, x: usize) -> nat
    decreases lists.len(),
{
    if lists.len() == 0 {
        0
    } else {
        in_degree(lists.drop_last(), x) + occurrences(lists.last(), x)
    }
}

/// The successors, in list order, that reach a zero counter while the
/// successor list `list` of a finished job is walked over its first `n`
/// entries: entry `k` releases `list[k]` when the counter of `list[k]` equals
/// the number of times `list[k]` occurs among the entries `0..=k`.
pub open spec fn released(list: Seq<usize>, counters: Seq<nat>, n: nat) -> Seq<usize>
    decreases n,
{
    if n == 0 || n > list.len() {
        Seq::empty()
    } else {
        let prev = released(list, counters, (n - 1) as nat);
        let j = list[n - 1];
        if counters[j as int] == occurrences(list.take(n as int), j) {
            prev.push(j)
        } else {
            prev
        }
    }
}

pub proof fn lemma_occurrences_push(s: Seq<usize>, y: usize, x: usize)
    ensures
        occurrences(s.push(y), x) == occurrences(s, x) + if y == x { 1nat } else { 0nat },
{
    assert(s.push(y).drop_last() =~= s);
}

pub proof fn lemma_occurrences_take_step(s: Seq<usize>, k: int, x: usize)
    requires
        0 <= k < s.len(),
    ensures
        occurrences(s.take(k + 1), x) == occurrences(s.take(k), x) + if s[k] == x { 1nat } else { 0nat },
{
    assert(s.take(k + 1) =~= s.take(k).push(s[k]));
    lemma_occurrences_push(s.take(k), s[k], x);
}

pub proof fn lemma_occurrences_take_le(s: Seq<usize>, k: int, x: usize)
    requires
        0 <= k <= s.len(),
    ensures
        occurrences(s.take(k), x) <= occurrences(s, x),
    decreases s.len() - k,
{
    if k < s.len() {
        lemma_occurrences_take_le(s, k + 1, x);
        lemma_occurrences_take_step(s, k, x);
    } else {
        assert(s.take(k) =~= s);
    }
}

pub proof fn lemma_occurrences_empty(x: usize)
    ensures
        occurrences(Seq::<usize>::empty(), x) == 0,
{
}

/// Occurrences of values that no entry of `s` reaches are zero.
pub proof fn lemma_occurrences_absent(s: Seq<usize>, x: usize)
    requires
        forall|k: int| 0 <= k < s.len() ==> s[k] != x,
    ensures
        occurrences(s, x) == 0,
    decreases s.len(),
{
    if s.len() > 0 {
        lemma_occurrences_absent(s.drop_last(), x);
    }
}

pub proof fn lemma_occurrences_positive(s: Seq<usize>, k: int)
    requires
        0 <= k < s.len(),
    ensures
        occurrences(s, s[k]) >= 1,
{
    lemma_occurrences_take_step(s, k, s[k]);
    lemma_occurrences_take_le(s, k + 1, s[k]);
}

pub proof fn lemma_in_degree_push(lists: Seq<Seq<usize>>, s: Seq<usize>, x: usize)
    ensures
        in_degree(lists.push(s), x) == in_degree(lists, x) + occurrences(s, x),
{
    assert(lists.push(s).drop_last() =~= lists);
}

pub proof fn lemma_in_degree_update(lists: Seq<Seq<usize>>, p: int, s: Seq<usize>, x: usize)
    requires
        0 <= p < lists.len(),
    ensures
        in_degree(lists.update(p, s), x) + occurrences(lists[p], x) == in_degree(lists, x)
            + occurrences(s, x),
    decreases lists.len(),
{
    if p == lists.len() - 1 {
        assert(lists.update(p, s).drop_last() =~= lists.drop_last());
    } else {
        lemma_in_degree_update(lists.drop_last(), p, s, x);
        assert(lists.update(p, s).drop_last() =~= lists.drop_last().update(p, s));
    }
}

pub proof fn lemma_occurrences_le_in_degree(lists: Seq<Seq<usize>>, p: int, x: usize)
    requires
        0 <= p < lists.len(),
    ensures
        occurrences(lists[p], x) <= in_degree(lists, x),
    decreases lists.len(),
{
    if p < lists.len() - 1 {
        lemma_occurrences_le_in_degree(lists.drop_last(), p, x);
    }
}

/// A node that no edge reaches has in-degree zero.
pub proof fn lemma_in_degree_absent(lists: Seq<Seq<usize>>, x: usize)
    requires
        forall|p: int, k: int| 0 <= p < lists.len() && 0 <= k < lists[p].len() ==> lists[p][k] != x,
    ensures
        in_degree(lists, x) == 0,
    decreases lists.len(),
{
    if lists.len() > 0 {
        lemma_in_degree_absent(lists.drop_last(), x);
        lemma_occurrences_absent(lists.last(), x);
    }
}

} // verus!

verus! {

/// Walking the first `n` entries of a successor list releases `x` exactly
/// when `x` occurs there and its counter equals its number of occurrences,
/// and releases nobody twice, provided no counter is below the number of
/// occurrences of its job.
pub proof fn lemma_released_prefix(list: Seq<usize>, counters: Seq<nat>, n: nat)
    requires
        n <= list.len(),
        forall|k: int| 0 <= k < list.len() ==> #[trigger] list[k] < counters.len(),
        forall|x: usize| #![trigger occurrences(list, x)] x < counters.len() ==> counters[x as int] >= occurrences(list, x),
    ensures
        released(list, counters, n).no_duplicates(),
        forall|x: usize| x < counters.len() ==> (#[trigger] released(list, counters, n).contains(x) <==> (
            occurrences(list.take(n as int), x) >= 1 && counters[x as int] == occurrences(list.take(n as int), x))),
    decreases n,
{
    if n == 0 {
        assert forall|x: usize| x < counters.len() implies !#[trigger] released(list, counters, n).contains(x) by {
            assert(list.take(0) =~= Seq::<usize>::empty());
        }
    } else {
        let m = (n - 1) as nat;
        lemma_released_prefix(list, counters, m);
        let y = list[m as int];
        let prev = released(list, counters, m);
        assert forall|x: usize| x < counters.len() implies (#[trigger] released(list, counters, n).contains(x) <==> (
            occurrences(list.take(n as int), x) >= 1 && counters[x as int] == occurrences(list.take(n as int), x))) by {
            lemma_occurrences_take_step(list, m as int, x);
            lemma_occurrences_take_le(list, n as int, x);
            assert(occurrences(list, x) <= counters[x as int]);
            assert(prev.contains(x) <==> (
                occurrences(list.take(m as int), x) >= 1 && counters[x as int] == occurrences(list.take(m as int), x)));
            if counters[y as int] == occurrences(list.take(n as int), y) {
                assert(released(list, counters, n) == prev.push(y));
                let r = prev.push(y);
                if x == y {
                    assert(r[prev.len() as int] == x);
                } else if prev.contains(x) {
                    let i = choose|i: int| 0 <= i < prev.len() && prev[i] == x;
                    assert(r[i] == x);
                } else {
                    assert forall|i: int| 0 <= i < r.len() implies r[i] != x by {
                        if i < prev.len() {
                            assert(prev[i] == r[i]);
                        }
                    }
                }
                assert(r.contains(x) <==> (prev.contains(x) || x == y));
            } else {
                assert(released(list, counters, n) == prev);
            }
        }
        lemma_occurrences_take_step(list, m as int, y);
        lemma_occurrences_take_le(list, n as int, y);
        assert(occurrences(list, y) <= counters[y as int]);
        if counters[y as int] == occurrences(list.take(n as int), y) {
            assert(!prev.contains(y));
            assert forall|i: int, j: int| 0 <= i < prev.push(y).len() && 0 <= j < prev.push(y).len() && i != j
                implies prev.push(y)[i] != prev.push(y)[j] by {
                if i < prev.len() && j < prev.len() {
                } else if i == prev.len() {
                    assert(prev.contains(prev[j]));
                } else {
                    assert(prev.contains(prev[i]));
                }
            }
        }
    }
}

/// When the whole successor list `list` of a finished job is walked, a job
/// is released exactly when it occurs in `list` and every pending edge that
/// points at it comes from `list`; no job is released twice.
pub proof fn lemma_released_exactly_last_dependency(list: Seq<usize>, counters: Seq<nat>)
    requires
        forall|k: int| 0 <= k < list.len() ==> #[trigger] list[k] < counters.len(),
        forall|x: usize| #![trigger occurrences(list, x)] x < counters.len() ==> counters[x as int] >= occurrences(list, x),
    ensures
        released(list, counters, list.len()).no_duplicates(),
        forall|x: usize| x < counters.len() ==> (#[trigger] released(list, counters, list.len()).contains(x) <==> (
            list.contains(x) && counters[x as int] == occurrences(list, x))),
{
    lemma_released_prefix(list, counters, list.len());
    assert(list.take(list.len() as int) =~= list);
    assert forall|x: usize| x < counters.len() implies (list.contains(x) <==> occurrences(list, x) >= 1) by {
        if list.contains(x) {
            let k = choose|k: int| 0 <= k < list.len() && list[k] == x;
            lemma_occurrences_positive(list, k);
        } else {
            lemma_occurrences_absent(list, x);
        }
    }
}

} // verus!

verus! {

/// Every released job is an entry of the walked successor list.
pub proof fn lemma_released_from_list(list: Seq<usize>, counters: Seq<nat>, n: nat)
    ensures
        forall|i: int| 0 <= i < released(list, counters, n).len() ==> list.contains(#[trigger] released(list, counters, n)[i]),
    decreases n,
{
    if n > 0 && n <= list.len() {
        lemma_released_from_list(list, counters, (n - 1) as nat);
        let prev = released(list, counters, (n - 1) as nat);
        let j = list[n - 1];
        assert(list.contains(j));
        assert forall|i: int| 0 <= i < released(list, counters, n).len() implies list.contains(#[trigger] released(list, counters, n)[i]) by {
            if i < prev.len() {
                assert(released(list, counters, n)[i] == prev[i]);
            }
        }
    }
}

} // verus!
