//! Completions of a search node: which further sets can finish a cover, and
//! how the reductions and the branching step keep a best completion reachable.
use crate::cover::{
    dominated, dominates, lemma_select, select, shrink, sole_holder, strip, undominated,
};
use vstd::prelude::*;

verus! {

/// The elements held by some set of `ts`.
pub open spec fn union_of(ts: Seq<Set<int>>) -> Set<int> {
    Set::new(|e: int| exists|i: int| 0 <= i < ts.len() && (#[trigger] ts[i]).contains(e))
}

/// `t` is the elements of some set of `m`.
pub open spec fn offered(m: Seq<(usize, Set<int>)>, t: Set<int>) -> bool {
    exists|j: int| 0 <= j < m.len() && (#[trigger] m[j]).1 == t
}

/// Every set of `ts` is the elements of some set of `m`, and together they
/// hold all of `x`.
pub open spec fn completes(m: Seq<(usize, Set<int>)>, x: Set<int>, ts: Seq<Set<int>>) -> bool {
    &&& forall|i: int| 0 <= i < ts.len() ==> offered(m, #[trigger] ts[i])
    &&& x.subset_of(union_of(ts))
}

/// A node with sets `m`, uncovered elements `x` and `chosen` ids committed
/// can be finished into a cover of at most `k` ids.
pub open spec fn completable(m: Seq<(usize, Set<int>)>, x: Set<int>, chosen: nat, k: nat) -> bool {
    exists|ts: Seq<Set<int>>| completes(m, x, ts) && chosen + ts.len() <= k
}

/// A completion never needs fewer ids than are committed, and one more as
/// long as something is uncovered.
pub proof fn lemma_completion_size(m: Seq<(usize, Set<int>)>, x: Set<int>, chosen: nat, k: nat)
    requires
        completable(m, x, chosen, k),
    ensures
        chosen <= k,
        x != Set::<int>::empty() ==> chosen + 1 <= k,
{
    let ts = choose|ts: Seq<Set<int>>| completes(m, x, ts) && chosen + ts.len() <= k;
    if x != Set::<int>::empty() {
        assert(exists|e: int| x.contains(e)) by {
            if !(exists|e: int| x.contains(e)) {
                assert(x =~= Set::<int>::empty());
            }
        }
        let e = choose|e: int| x.contains(e);
        assert(union_of(ts).contains(e));
    }
}

/// An uncovered element that no set holds leaves no completion.
pub proof fn lemma_unheld_blocks(m: Seq<(usize, Set<int>)>, x: Set<int>, chosen: nat, k: nat, e: int)
    requires
        x.contains(e),
        forall|i: int| 0 <= i < m.len() ==> !(#[trigger] m[i]).1.contains(e),
    ensures
        !completable(m, x, chosen, k),
{
    if completable(m, x, chosen, k) {
        let ts = choose|ts: Seq<Set<int>>| completes(m, x, ts) && chosen + ts.len() <= k;
        assert(union_of(ts).contains(e));
        let i = choose|i: int| 0 <= i < ts.len() && (#[trigger] ts[i]).contains(e);
        assert(offered(m, ts[i]));
        let j = choose|j: int| 0 <= j < m.len() && (#[trigger] m[j]).1 == ts[i];
        assert(m[j].1.contains(e));
    }
}

/// When element `e` of `x` has a single holder, every completion uses it.
pub proof fn lemma_forced_in_every_completion(
    m: Seq<(usize, Set<int>)>,
    x: Set<int>,
    e: int,
    i: int,
    ts: Seq<Set<int>>,
)
    requires
        x.contains(e),
        sole_holder(m, e, i),
        completes(m, x, ts),
    ensures
        ts.contains(m[i].1),
{
    assert(union_of(ts).contains(e));
    let t = choose|t: int| 0 <= t < ts.len() && (#[trigger] ts[t]).contains(e);
    assert(offered(m, ts[t]));
    let j = choose|j: int| 0 <= j < m.len() && (#[trigger] m[j]).1 == ts[t];
    assert(m[j].1.contains(e));
    assert(j == i);
    assert(ts[t] == m[i].1);
}

/// A completion that does not use the set at `idx` still completes once that
/// set is gone.
pub proof fn lemma_exclude_keeps(m: Seq<(usize, Set<int>)>, x: Set<int>, ts: Seq<Set<int>>, idx: int)
    requires
        0 <= idx < m.len(),
        completes(m, x, ts),
        !ts.contains(m[idx].1),
    ensures
        completes(m.remove(idx), x, ts),
{
    let m2 = m.remove(idx);
    assert forall|i: int| 0 <= i < ts.len() implies offered(m2, #[trigger] ts[i]) by {
        assert(offered(m, ts[i]));
        let j = choose|j: int| 0 <= j < m.len() && (#[trigger] m[j]).1 == ts[i];
        if j == idx {
            assert(ts.contains(m[idx].1));
        } else if j < idx {
            assert(m2[j] == m[j]);
        } else {
            assert(m2[j - 1] == m[j]);
        }
    }
}

/// What is left of the sets of `ts` once the set `v` is committed: each set
/// other than `v` without the elements of `v`, the empty ones dropped.
pub open spec fn residue(ts: Seq<Set<int>>, v: Set<int>) -> Seq<Set<int>>
    decreases ts.len(),
{
    if ts.len() == 0 {
        Seq::empty()
    } else {
        let rest = residue(ts.drop_last(), v);
        let t = ts.last();
        if t == v || t.difference(v) == Set::<int>::empty() {
            rest
        } else {
            rest.push(t.difference(v))
        }
    }
}

proof fn lemma_residue(ts: Seq<Set<int>>, v: Set<int>)
    ensures
        forall|r: int| 0 <= r < residue(ts, v).len() ==> exists|i: int|
            0 <= i < ts.len() && ts[i] != v && (#[trigger] residue(ts, v)[r]) == ts[i].difference(v)
                && ts[i].difference(v) != Set::<int>::empty(),
        forall|i: int, e: int|
            0 <= i < ts.len() && ts[i] != v && #[trigger] ts[i].contains(e) && !v.contains(e)
                ==> union_of(residue(ts, v)).contains(e),
        residue(ts, v).len() + (if ts.contains(v) { 1int } else { 0int }) <= ts.len(),
    decreases ts.len(),
{
    if ts.len() > 0 {
        let init = ts.drop_last();
        lemma_residue(init, v);
        let rest = residue(init, v);
        let t = ts.last();
        let res = residue(ts, v);
        assert forall|r: int| 0 <= r < res.len() implies exists|i: int|
            0 <= i < ts.len() && ts[i] != v && (#[trigger] res[r]) == ts[i].difference(v)
                && ts[i].difference(v) != Set::<int>::empty() by {
            if r < rest.len() {
                assert(res[r] == rest[r]);
                let i = choose|i: int|
                    0 <= i < init.len() && init[i] != v && (#[trigger] rest[r]) == init[i].difference(v)
                        && init[i].difference(v) != Set::<int>::empty();
                assert(ts[i] == init[i]);
            } else {
                assert(ts[ts.len() - 1] == t);
            }
        }
        assert forall|i: int, e: int|
            0 <= i < ts.len() && ts[i] != v && #[trigger] ts[i].contains(e) && !v.contains(e)
                implies union_of(res).contains(e) by {
            if i < init.len() {
                assert(init[i] == ts[i]);
                assert(union_of(rest).contains(e));
                let r = choose|r: int| 0 <= r < rest.len() && (#[trigger] rest[r]).contains(e);
                if res != rest {
                    assert(res == rest.push(t.difference(v)));
                    assert(res[r] == rest[r]);
                }
                assert(res[r].contains(e));
            } else {
                assert(t.difference(v).contains(e));
                assert(res == rest.push(t.difference(v)));
                assert(res[rest.len() as int].contains(e));
            }
        }
        if ts.contains(v) && !init.contains(v) {
            assert(t == v) by {
                let i = choose|i: int| 0 <= i < ts.len() && ts[i] == v;
                if i < init.len() {
                    assert(init[i] == v);
                }
            }
        }
        if init.contains(v) {
            let i = choose|i: int| 0 <= i < init.len() && init[i] == v;
            assert(ts[i] == v);
        }
    }
}

/// Committing a set that a completion uses leaves a completion with one set
/// fewer.
pub proof fn lemma_commit_keeps(m: Seq<(usize, Set<int>)>, x: Set<int>, ts: Seq<Set<int>>, idx: int)
    requires
        0 <= idx < m.len(),
        completes(m, x, ts),
        ts.contains(m[idx].1),
    ensures
        completes(shrink(m.remove(idx), m[idx].1), x.difference(m[idx].1), residue(ts, m[idx].1)),
        residue(ts, m[idx].1).len() + 1 <= ts.len(),
{
    let v = m[idx].1;
    let mr = m.remove(idx);
    let t = strip(mr, v);
    let keep = |i: int| t[i].1 != Set::<int>::empty();
    let m2 = shrink(mr, v);
    let ts2 = residue(ts, v);
    lemma_residue(ts, v);
    lemma_select(t, keep, t.len() as int);
    assert forall|r: int| 0 <= r < ts2.len() implies offered(m2, #[trigger] ts2[r]) by {
        let i = choose|i: int|
            0 <= i < ts.len() && ts[i] != v && (#[trigger] ts2[r]) == ts[i].difference(v)
                && ts[i].difference(v) != Set::<int>::empty();
        assert(offered(m, ts[i]));
        let j = choose|j: int| 0 <= j < m.len() && (#[trigger] m[j]).1 == ts[i];
        let jr = if j < idx { j } else { j - 1 };
        assert(j != idx);
        assert(mr[jr] == m[j]);
        assert(keep(jr));
        assert(m2.contains(t[jr]));
        let p = choose|p: int| 0 <= p < m2.len() && m2[p] == t[jr];
        assert(m2[p].1 == ts2[r]);
    }
    assert forall|e: int| x.difference(v).contains(e) implies union_of(ts2).contains(e) by {
        assert(union_of(ts).contains(e));
        let i = choose|i: int| 0 <= i < ts.len() && (#[trigger] ts[i]).contains(e);
        assert(ts[i] != v);
    }
}

/// Set `a` of `m` ranks above set `b`: it has more elements, or as many and a
/// smaller id.
pub open spec fn ranks_above(m: Seq<(usize, Set<int>)>, a: int, b: int) -> bool {
    m[a].1.len() > m[b].1.len() || (m[a].1.len() == m[b].1.len() && m[a].0 < m[b].0)
}

/// Among the sets below `k` that contain `base`, one ranks highest.
proof fn lemma_top_superset(m: Seq<(usize, Set<int>)>, base: Set<int>, k: int)
    requires
        0 <= k <= m.len(),
        exists|i: int| 0 <= i < k && base.subset_of(#[trigger] m[i].1),
    ensures
        exists|b: int|
            0 <= b < k && base.subset_of(m[b].1) && forall|a: int|
                0 <= a < k && base.subset_of(#[trigger] m[a].1) ==> !ranks_above(m, a, b),
    decreases k,
{
    if exists|i: int| 0 <= i < k - 1 && base.subset_of(#[trigger] m[i].1) {
        lemma_top_superset(m, base, k - 1);
        let b = choose|b: int|
            0 <= b < k - 1 && base.subset_of(m[b].1) && forall|a: int|
                0 <= a < k - 1 && base.subset_of(#[trigger] m[a].1) ==> !ranks_above(m, a, b);
        if base.subset_of(m[k - 1].1) && ranks_above(m, k - 1, b) {
            assert forall|a: int| 0 <= a < k && base.subset_of(#[trigger] m[a].1) implies !ranks_above(
                m,
                a,
                k - 1,
            ) by {
                if a < k - 1 {
                    assert(!ranks_above(m, a, b));
                }
            }
        } else {
            assert forall|a: int| 0 <= a < k && base.subset_of(#[trigger] m[a].1) implies !ranks_above(
                m,
                a,
                b,
            ) by {}
        }
    } else {
        assert forall|a: int| 0 <= a < k && base.subset_of(#[trigger] m[a].1) implies !ranks_above(
            m,
            a,
            k - 1,
        ) by {
            if a < k - 1 {
                assert(base.subset_of(m[a].1));
            }
        }
    }
}

/// Every set of `m` lies inside a set of `m` that nothing dominates.
pub proof fn lemma_undominated_superset(m: Seq<(usize, Set<int>)>, j: int)
    requires
        0 <= j < m.len(),
        forall|i: int| 0 <= i < m.len() ==> (#[trigger] m[i]).1.finite(),
    ensures
        exists|b: int| 0 <= b < m.len() && !dominated(m, b) && m[j].1.subset_of(#[trigger] m[b].1),
{
    let base = m[j].1;
    assert(base.subset_of(m[j].1));
    lemma_top_superset(m, base, m.len() as int);
    let b = choose|b: int|
        0 <= b < m.len() && base.subset_of(m[b].1) && forall|a: int|
            0 <= a < m.len() && base.subset_of(#[trigger] m[a].1) ==> !ranks_above(m, a, b);
    if dominated(m, b) {
        let a = choose|a: int| 0 <= a < m.len() && a != b && dominates(m[a], m[b]);
        assert(m[a].1.finite() && m[b].1.finite());
        assert(base.subset_of(m[a].1));
        vstd::set_lib::lemma_len_subset(m[b].1, m[a].1);
        if m[b].1 != m[a].1 {
            if m[b].1.len() == m[a].1.len() {
                vstd::set_lib::lemma_subset_equality(m[b].1, m[a].1);
            }
        }
        assert(ranks_above(m, a, b));
    }
}

/// Dropping the dominated sets keeps every completion size reachable.
pub proof fn lemma_domination_keeps(m: Seq<(usize, Set<int>)>, x: Set<int>, ts: Seq<Set<int>>)
    requires
        completes(m, x, ts),
        forall|i: int| 0 <= i < m.len() ==> (#[trigger] m[i]).1.finite(),
    ensures
        exists|ts2: Seq<Set<int>>| completes(undominated(m), x, ts2) && ts2.len() == ts.len(),
{
    let keep = |i: int| !dominated(m, i);
    lemma_select(m, keep, m.len() as int);
    let um = undominated(m);
    let ts2 = Seq::new(
        ts.len(),
        |i: int|
            m[choose|b: int| 0 <= b < m.len() && !dominated(m, b) && ts[i].subset_of(#[trigger] m[b].1)].1,
    );
    assert forall|i: int| 0 <= i < ts.len() implies ts[i].subset_of(ts2[i]) && offered(um, #[trigger] ts2[i]) by {
        assert(offered(m, ts[i]));
        let j = choose|j: int| 0 <= j < m.len() && (#[trigger] m[j]).1 == ts[i];
        lemma_undominated_superset(m, j);
        let b = choose|b: int| 0 <= b < m.len() && !dominated(m, b) && ts[i].subset_of(#[trigger] m[b].1);
        assert(ts2[i] == m[b].1);
        assert(keep(b));
        assert(um.contains(m[b]));
        let p = choose|p: int| 0 <= p < um.len() && um[p] == m[b];
        assert(um[p].1 == ts2[i]);
    }
    assert forall|e: int| x.contains(e) implies union_of(ts2).contains(e) by {
        assert(union_of(ts).contains(e));
        let i = choose|i: int| 0 <= i < ts.len() && (#[trigger] ts[i]).contains(e);
        assert(ts[i].subset_of(ts2[i]));
    }
    assert(completes(um, x, ts2));
}

/// Removing dominated sets never changes the smallest cover a node can reach:
/// the node can be finished within `k` ids exactly when it can once its
/// dominated sets are gone.
pub proof fn lemma_domination_sound(m: Seq<(usize, Set<int>)>, x: Set<int>, chosen: nat, k: nat)
    requires
        forall|i: int| 0 <= i < m.len() ==> (#[trigger] m[i]).1.finite(),
    ensures
        completable(m, x, chosen, k) == completable(undominated(m), x, chosen, k),
{
    let keep = |i: int| !dominated(m, i);
    lemma_select(m, keep, m.len() as int);
    let um = undominated(m);
    if completable(m, x, chosen, k) {
        let ts = choose|ts: Seq<Set<int>>| completes(m, x, ts) && chosen + ts.len() <= k;
        lemma_domination_keeps(m, x, ts);
    }
    if completable(um, x, chosen, k) {
        let ts = choose|ts: Seq<Set<int>>| completes(um, x, ts) && chosen + ts.len() <= k;
        assert forall|i: int| 0 <= i < ts.len() implies offered(m, #[trigger] ts[i]) by {
            assert(offered(um, ts[i]));
            let p = choose|p: int| 0 <= p < um.len() && (#[trigger] um[p]).1 == ts[i];
            assert(um.contains(um[p]));
            let j = choose|j: int| 0 <= j < m.len() && keep(j) && m[j] == um[p];
            assert(m[j].1 == ts[i]);
        }
        assert(completes(m, x, ts));
    }
}

/// Selecting with a rule that accepts every entry below `k` keeps that prefix.
proof fn lemma_select_all<T>(s: Seq<T>, keep: spec_fn(int) -> bool, k: int)
    requires
        0 <= k <= s.len(),
        forall|i: int| 0 <= i < k ==> #[trigger] keep(i),
    ensures
        select(s, keep, k) == s.subrange(0, k),
    decreases k,
{
    if k > 0 {
        lemma_select_all(s, keep, k - 1);
        assert(s.subrange(0, k) =~= s.subrange(0, k - 1).push(s[k - 1]));
    }
}

/// Domination elimination is idempotent: once the dominated sets are gone,
/// no set left is dominated, and eliminating again removes nothing.
pub proof fn lemma_undominated_idempotent(m: Seq<(usize, Set<int>)>)
    ensures
        forall|i: int| 0 <= i < undominated(m).len() ==> !dominated(undominated(m), i),
        undominated(undominated(m)) == undominated(m),
{
    let keep = |i: int| !dominated(m, i);
    lemma_select(m, keep, m.len() as int);
    let um = undominated(m);
    assert forall|i: int| 0 <= i < um.len() implies !dominated(um, i) by {
        if dominated(um, i) {
            let a = choose|a: int| 0 <= a < um.len() && a != i && dominates(um[a], um[i]);
            assert(um.contains(um[i]));
            assert(um.contains(um[a]));
            let ji = choose|j: int| 0 <= j < m.len() && keep(j) && m[j] == um[i];
            let ja = choose|j: int| 0 <= j < m.len() && keep(j) && m[j] == um[a];
            assert(dominates(m[ja], m[ji]));
            assert(ja != ji);
            assert(dominated(m, ji));
        }
    }
    let keep2 = |i: int| !dominated(um, i);
    lemma_select_all(um, keep2, um.len() as int);
    assert(um.subrange(0, um.len() as int) =~= um);
}

/// Where no uncovered element has a single holder, no set is forced.
pub proof fn lemma_nothing_forced(m: Seq<(usize, Set<int>)>, x: Set<int>)
    requires
        forall|e: int, i: int| x.contains(e) ==> !sole_holder(m, e, i),
    ensures
        forall|id: usize| !crate::cover::forced_id(m, x, id),
{
}

} // verus!
