//! The branch-and-bound search for a smallest cover.
use crate::bitset::{count_true, max_width, Bitset};
use crate::completion::{
    completable, completes, lemma_commit_keeps, lemma_completion_size, lemma_domination_keeps,
    lemma_exclude_keeps, lemma_forced_in_every_completion, lemma_unheld_blocks, offered, residue,
    union_of,
};
use crate::cover::{
    forced_id, lemma_select, sole_holder, model, remove_dominated, scan_uncovered, select, shrink, strip, undominated,
    widths, CandidateSet, Scan, State,
};
use vstd::arithmetic::power2::{lemma_pow2_pos, lemma_pow2_strictly_increases, lemma_pow2_unfold, pow2};
use vstd::prelude::*;

verus! {

/// The elements `0 .. n`.
pub open spec fn universe(n: nat) -> Set<int> {
    Set::new(|e: int| 0 <= e < n)
}

/// Some set of `inst` has id `id`.
pub open spec fn names_set(inst: Seq<(usize, Set<int>)>, id: usize) -> bool {
    exists|j: int| 0 <= j < inst.len() && (#[trigger] inst[j]).0 == id
}

/// The elements held by the sets of `inst` whose ids occur in `ids`.
pub open spec fn covered(inst: Seq<(usize, Set<int>)>, ids: Seq<usize>) -> Set<int> {
    Set::new(
        |e: int|
            exists|j: int|
                0 <= j < inst.len() && ids.contains((#[trigger] inst[j]).0) && inst[j].1.contains(e),
    )
}

/// `ids` names sets of `inst` only, and together they hold every element of `0 .. n`.
pub open spec fn is_cover(inst: Seq<(usize, Set<int>)>, n: nat, ids: Seq<usize>) -> bool {
    &&& forall|k: int| 0 <= k < ids.len() ==> names_set(inst, #[trigger] ids[k])
    &&& universe(n).subset_of(covered(inst, ids))
}

/// No two sets of `inst` share an id.
pub open spec fn unique_ids(inst: Seq<(usize, Set<int>)>) -> bool {
    forall|j: int, k: int|
        0 <= j < inst.len() && 0 <= k < inst.len() && j != k ==> (#[trigger] inst[j]).0 != (
        #[trigger] inst[k]).0
}

/// A search node with sets `m`, uncovered elements `x` and chosen ids `c`
/// agrees with the instance `inst`: `x` is what `c` leaves uncovered, and each
/// set of `m` is a set of `inst` restricted to `x`.
pub open spec fn consistent(
    inst: Seq<(usize, Set<int>)>,
    n: nat,
    m: Seq<(usize, Set<int>)>,
    x: Set<int>,
    c: Seq<usize>,
) -> bool {
    &&& x == universe(n).difference(covered(inst, c))
    &&& forall|k: int| 0 <= k < c.len() ==> names_set(inst, #[trigger] c[k])
    &&& forall|i: int| 0 <= i < m.len() ==> restricts(inst, x, #[trigger] m[i])
}

/// `p` is a set of `inst` restricted to `x`.
pub open spec fn restricts(inst: Seq<(usize, Set<int>)>, x: Set<int>, p: (usize, Set<int>)) -> bool {
    exists|j: int| 0 <= j < inst.len() && (#[trigger] inst[j]).0 == p.0 && p.1 == inst[j].1.intersect(x)
}

/// Committing a set keeps a node consistent with the instance.
pub proof fn lemma_commit_consistent(
    inst: Seq<(usize, Set<int>)>,
    n: nat,
    m: Seq<(usize, Set<int>)>,
    x: Set<int>,
    c: Seq<usize>,
    idx: int,
)
    requires
        unique_ids(inst),
        consistent(inst, n, m, x, c),
        0 <= idx < m.len(),
    ensures
        consistent(
            inst,
            n,
            shrink(m.remove(idx), m[idx].1),
            x.difference(m[idx].1),
            c.push(m[idx].0),
        ),
{
    let s = m[idx].1;
    let id = m[idx].0;
    let c2 = c.push(id);
    let x2 = x.difference(s);
    assert(restricts(inst, x, m[idx]));
    let j0 = choose|j: int| 0 <= j < inst.len() && (#[trigger] inst[j]).0 == m[idx].0 && m[idx].1 == inst[j].1.intersect(x);
    assert forall|e: int| #[trigger] x2.contains(e) == universe(n).difference(covered(inst, c2)).contains(e) by {
        if covered(inst, c2).contains(e) && !covered(inst, c).contains(e) {
            let j = choose|j: int| 0 <= j < inst.len() && c2.contains((#[trigger] inst[j]).0) && inst[j].1.contains(e);
            if !c.contains(inst[j].0) {
                let t = choose|t: int| 0 <= t < c2.len() && c2[t] == inst[j].0;
                assert(t == c.len());
                assert(j == j0);
            } else {
                assert(covered(inst, c).contains(e));
            }
        }
        if covered(inst, c).contains(e) {
            let j = choose|j: int| 0 <= j < inst.len() && c.contains((#[trigger] inst[j]).0) && inst[j].1.contains(e);
            let t = choose|t: int| 0 <= t < c.len() && c[t] == inst[j].0;
            assert(c2[t] == inst[j].0);
            assert(covered(inst, c2).contains(e));
        }
        if s.contains(e) {
            assert(c2[c.len() as int] == id);
            assert(inst[j0].1.contains(e));
            assert(covered(inst, c2).contains(e));
        }
    }
    assert(x2 =~= universe(n).difference(covered(inst, c2)));
    assert forall|k: int| 0 <= k < c2.len() implies names_set(inst, #[trigger] c2[k]) by {
        if k == c.len() {
            assert(inst[j0].0 == c2[k]);
        }
    }
    let mr = m.remove(idx);
    let t = strip(mr, s);
    let keep = |i: int| t[i].1 != Set::<int>::empty();
    lemma_select(t, keep, t.len() as int);
    let m2 = shrink(mr, s);
    assert forall|i: int| 0 <= i < m2.len() implies restricts(inst, x2, #[trigger] m2[i]) by {
        assert(m2.contains(m2[i]));
        let k = choose|k: int| 0 <= k < t.len() && keep(k) && t[k] == m2[i];
        let src = if k < idx { k } else { k + 1 };
        assert(mr[k] == m[src]);
        assert(restricts(inst, x, m[src]));
        let j = choose|j: int| 0 <= j < inst.len() && (#[trigger] inst[j]).0 == m[src].0 && m[src].1 == inst[j].1.intersect(x);
        assert(m2[i].1 =~= inst[j].1.intersect(x2));
    }
}

/// Dropping dominated sets keeps a node consistent with the instance.
pub proof fn lemma_undominated_consistent(
    inst: Seq<(usize, Set<int>)>,
    n: nat,
    m: Seq<(usize, Set<int>)>,
    x: Set<int>,
    c: Seq<usize>,
)
    requires
        consistent(inst, n, m, x, c),
    ensures
        consistent(inst, n, undominated(m), x, c),
{
    let keep = |i: int| !crate::cover::dominated(m, i);
    lemma_select(m, keep, m.len() as int);
    let m2 = undominated(m);
    assert forall|i: int| 0 <= i < m2.len() implies restricts(inst, x, #[trigger] m2[i]) by {
        assert(m2.contains(m2[i]));
        let k = choose|k: int| 0 <= k < m.len() && keep(k) && m[k] == m2[i];
        assert(m[k] == m2[i]);
        assert(restricts(inst, x, m[k]));
    }
}

/// Dropping one set keeps a node consistent with the instance.
proof fn lemma_remove_consistent(
    inst: Seq<(usize, Set<int>)>,
    n: nat,
    m: Seq<(usize, Set<int>)>,
    x: Set<int>,
    c: Seq<usize>,
    idx: int,
)
    requires
        consistent(inst, n, m, x, c),
        0 <= idx < m.len(),
    ensures
        consistent(inst, n, m.remove(idx), x, c),
{
    let m2 = m.remove(idx);
    assert forall|i: int| 0 <= i < m2.len() implies restricts(inst, x, #[trigger] m2[i]) by {
        let src = if i < idx { i } else { i + 1 };
        assert(m2[i] == m[src]);
        assert(restricts(inst, x, m[src]));
        let j = choose|j: int| 0 <= j < inst.len() && (#[trigger] inst[j]).0 == m[src].0 && m[src].1 == inst[j].1.intersect(x);
        assert(inst[j].0 == m2[i].0);
    }
}

/// Committing a set leaves fewer sets.
proof fn lemma_shrink_len(m: Seq<(usize, Set<int>)>, idx: int, s: Set<int>)
    requires
        0 <= idx < m.len(),
    ensures
        shrink(m.remove(idx), s).len() < m.len(),
{
    let t = strip(m.remove(idx), s);
    lemma_select(t, |i: int| t[i].1 != Set::<int>::empty(), t.len() as int);
}

/// A bound on the nodes that a node can still give rise to; it shrinks at
/// every step of the search, so the search ends.
pub open spec fn cost(s: State) -> nat {
    (pow2((s.sets@.len() + 1) as nat) - 1) as nat
}

/// The total cost of the nodes on a stack.
pub open spec fn weight(st: Seq<State>) -> nat
    decreases st.len(),
{
    if st.len() == 0 {
        0
    } else {
        weight(st.drop_last()) + cost(st.last())
    }
}

proof fn lemma_cost_pos(x: State)
    ensures
        cost(x) >= 1,
{
    lemma_pow2_unfold((x.sets@.len() + 1) as nat);
    lemma_pow2_pos(x.sets@.len());
}

proof fn lemma_weight_push(st: Seq<State>, x: State)
    ensures
        weight(st.push(x)) == weight(st) + cost(x),
{
    assert(st.push(x).drop_last() =~= st);
}

/// Two nodes with fewer sets than `r` cost less together than one with `r` sets.
proof fn lemma_children_cost(r: nat, a: nat, b: nat)
    requires
        a < r,
        b < r,
    ensures
        (pow2(a + 1) - 1) + (pow2(b + 1) - 1) < pow2(r + 1) - 1,
        pow2(r + 1) >= 2,
{
    if a + 1 < r {
        lemma_pow2_strictly_increases(a + 1, r);
    }
    if b + 1 < r {
        lemma_pow2_strictly_increases(b + 1, r);
    }
    lemma_pow2_unfold(r + 1);
    lemma_pow2_pos(r);
}

/// The index of the first set with id `id`, if any.
fn position_of(sets: &Vec<CandidateSet>, id: usize) -> (r: Option<usize>)
    ensures
        match r {
            Some(i) => i < sets@.len() && sets@[i as int].id == id,
            None => forall|i: int| 0 <= i < sets@.len() ==> (#[trigger] sets@[i]).id != id,
        },
{
    let mut i: usize = 0;
    while i < sets.len()
        invariant
            i <= sets@.len(),
            forall|k: int| 0 <= k < i ==> (#[trigger] sets@[k]).id != id,
        decreases sets@.len() - i,
    {
        if sets[i].id == id {
            return Some(i);
        }
        i += 1;
    }
    None
}

/// The index of the first set with the most elements.
pub fn largest_set(sets: &Vec<CandidateSet>) -> (r: usize)
    requires
        sets@.len() > 0,
    ensures
        r < sets@.len(),
        forall|j: int| 0 <= j < sets@.len() ==> count_true((#[trigger] sets@[j]).elements@) <= count_true(
            sets@[r as int].elements@,
        ),
        forall|j: int| 0 <= j < r ==> count_true((#[trigger] sets@[j]).elements@) < count_true(
            sets@[r as int].elements@,
        ),
{
    let mut best: usize = 0;
    let mut best_count = sets[0].elements.count_ones();
    let mut i: usize = 1;
    while i < sets.len()
        invariant
            1 <= i <= sets@.len(),
            best < i,
            best_count == count_true(sets@[best as int].elements@),
            forall|j: int| 0 <= j < i ==> count_true((#[trigger] sets@[j]).elements@) <= best_count,
            forall|j: int| 0 <= j < best ==> count_true((#[trigger] sets@[j]).elements@) < best_count,
        decreases sets@.len() - i,
    {
        let c = sets[i].elements.count_ones();
        if c > best_count {
            best = i;
            best_count = c;
        }
        i += 1;
    }
    best
}

/// Whether a node whose cover would need at least `need` ids can still beat
/// the incumbent `best`.
fn beats(need: usize, best: &Option<Vec<usize>>) -> (r: bool)
    ensures
        r == match best {
            Some(b) => need < b@.len(),
            None => true,
        },
{
    match best {
        Some(b) => need < b.len(),
        None => true,
    }
}

/// Whether a node with `chosen` ids committed and elements left to cover can
/// still beat the incumbent `best`: it needs at least one more id.
fn worth_expanding(chosen: usize, best: &Option<Vec<usize>>) -> (r: bool)
    ensures
        r == match best {
            Some(b) => chosen + 1 < b@.len(),
            None => true,
        },
{
    match best {
        Some(b) => chosen < b.len() && b.len() - chosen > 1,
        None => true,
    }
}

/// Taking entries out of `m` keeps its ids distinct.
proof fn lemma_select_unique(m: Seq<(usize, Set<int>)>, keep: spec_fn(int) -> bool, k: int)
    requires
        unique_ids(m),
        0 <= k <= m.len(),
    ensures
        unique_ids(select(m, keep, k)),
    decreases k,
{
    if k > 0 {
        lemma_select_unique(m, keep, k - 1);
        lemma_select(m, keep, k - 1);
        let prev = select(m, keep, k - 1);
        if keep(k - 1) {
            let cur = prev.push(m[k - 1]);
            assert forall|a: int, b: int|
                0 <= a < cur.len() && 0 <= b < cur.len() && a != b implies (#[trigger] cur[a]).0 != (
                #[trigger] cur[b]).0 by {
                if a < prev.len() && b < prev.len() {
                    assert(cur[a] == prev[a] && cur[b] == prev[b]);
                } else if a < prev.len() {
                    assert(prev.contains(cur[a]));
                    let i = choose|i: int| 0 <= i < k - 1 && keep(i) && m[i] == cur[a];
                    assert(cur[b] == m[k - 1]);
                } else {
                    assert(prev.contains(cur[b]));
                    let i = choose|i: int| 0 <= i < k - 1 && keep(i) && m[i] == cur[b];
                    assert(cur[a] == m[k - 1]);
                }
            }
        }
    }
}

/// Dropping a set, or committing one, keeps the ids of a node distinct.
proof fn lemma_unique_after(m: Seq<(usize, Set<int>)>, idx: int, by: Set<int>)
    requires
        unique_ids(m),
        0 <= idx < m.len(),
    ensures
        unique_ids(m.remove(idx)),
        unique_ids(shrink(m.remove(idx), by)),
{
    let mr = m.remove(idx);
    assert forall|a: int, b: int|
        0 <= a < mr.len() && 0 <= b < mr.len() && a != b implies (#[trigger] mr[a]).0 != (
        #[trigger] mr[b]).0 by {
        let sa = if a < idx { a } else { a + 1 };
        let sb = if b < idx { b } else { b + 1 };
        assert(mr[a] == m[sa] && mr[b] == m[sb]);
    }
    let t = strip(mr, by);
    assert forall|a: int, b: int|
        0 <= a < t.len() && 0 <= b < t.len() && a != b implies (#[trigger] t[a]).0 != (
        #[trigger] t[b]).0 by {
        assert(t[a].0 == mr[a].0 && t[b].0 == mr[b].0);
    }
    lemma_select_unique(t, |i: int| t[i].1 != Set::<int>::empty(), t.len() as int);
}

/// The element sets of a node are finite.
proof fn lemma_model_finite(sets: Seq<CandidateSet>)
    ensures
        forall|i: int| 0 <= i < sets.len() ==> (#[trigger] model(sets)[i]).1.finite(),
{
    assert forall|i: int| 0 <= i < sets.len() implies (#[trigger] model(sets)[i]).1.finite() by {
        let b = sets[i].elements@;
        vstd::set_lib::lemma_int_range(0, b.len() as int);
        assert(sets[i].elems().subset_of(vstd::set_lib::set_int_range(0, b.len() as int)));
        vstd::set_lib::lemma_set_subset_finite(vstd::set_lib::set_int_range(0, b.len() as int), sets[i].elems());
    }
}

/// A node can be finished into a cover of at most `k` ids.
pub open spec fn open_below(s: State, k: nat) -> bool {
    completable(model(s.sets@), s.uncovered_elements.elems(), s.chosen_sets@.len(), k)
}

/// The incumbent `best` has at most `k` ids.
pub open spec fn beaten(best: Option<Vec<usize>>, k: nat) -> bool {
    match best {
        Some(b) => b@.len() <= k,
        None => false,
    }
}

/// Every cover of the instance is matched by the incumbent or can still be
/// matched from some node of the stack.
pub open spec fn nothing_missed(
    inst: Seq<(usize, Set<int>)>,
    n: nat,
    best: Option<Vec<usize>>,
    stack: Seq<State>,
) -> bool {
    forall|ks: Seq<usize>|
        is_cover(inst, n, ks) ==> beaten(best, ks.len()) || exists|i: int|
            0 <= i < stack.len() && open_below(#[trigger] stack[i], ks.len())
}

/// After a node is popped and handled, nothing is missed as long as whatever
/// it could reach is matched by the incumbent or by a node pushed since.
proof fn lemma_nothing_missed_after(
    inst: Seq<(usize, Set<int>)>,
    n: nat,
    before: Seq<State>,
    after: Seq<State>,
    s0: State,
    old_best: Option<Vec<usize>>,
    new_best: Option<Vec<usize>>,
)
    requires
        before.len() > 0,
        s0 == before.last(),
        after.len() >= before.len() - 1,
        forall|i: int| 0 <= i < before.len() - 1 ==> after[i] == before[i],
        nothing_missed(inst, n, old_best, before),
        forall|k: nat| beaten(old_best, k) ==> beaten(new_best, k),
        forall|k: nat|
            open_below(s0, k) ==> beaten(new_best, k) || exists|i: int|
                before.len() - 1 <= i < after.len() && open_below(#[trigger] after[i], k),
    ensures
        nothing_missed(inst, n, new_best, after),
{
    assert forall|ks: Seq<usize>| is_cover(inst, n, ks) implies beaten(new_best, ks.len()) || exists|i: int|
        0 <= i < after.len() && open_below(#[trigger] after[i], ks.len()) by {
        if !beaten(old_best, ks.len()) {
            let i = choose|i: int| 0 <= i < before.len() && open_below(#[trigger] before[i], ks.len());
            if i < before.len() - 1 {
                assert(after[i] == before[i]);
            } else {
                assert(before[i] == s0);
            }
        }
    }
}

/// Any cover can be reached from the root node.
proof fn lemma_root_open(inst: Seq<(usize, Set<int>)>, n: nat, ks: Seq<usize>)
    requires
        unique_ids(inst),
        is_cover(inst, n, ks),
    ensures
        completable(inst, universe(n), 0, ks.len()),
{
    let ts = Seq::new(
        ks.len(),
        |i: int| inst[choose|j: int| 0 <= j < inst.len() && (#[trigger] inst[j]).0 == ks[i]].1,
    );
    assert forall|i: int| 0 <= i < ts.len() implies offered(inst, #[trigger] ts[i]) by {
        assert(names_set(inst, ks[i]));
        let j = choose|j: int| 0 <= j < inst.len() && (#[trigger] inst[j]).0 == ks[i];
        assert(inst[j].1 == ts[i]);
    }
    assert forall|e: int| universe(n).contains(e) implies union_of(ts).contains(e) by {
        assert(covered(inst, ks).contains(e));
        let j = choose|j: int| 0 <= j < inst.len() && ks.contains((#[trigger] inst[j]).0) && inst[j].1.contains(e);
        let i = choose|i: int| 0 <= i < ks.len() && ks[i] == inst[j].0;
        assert(names_set(inst, ks[i]));
        let j2 = choose|j2: int| 0 <= j2 < inst.len() && (#[trigger] inst[j2]).0 == ks[i];
        assert(j2 == j);
        assert(ts[i].contains(e));
    }
    assert(completes(inst, universe(n), ts));
}

/// A set that is the only holder of an element stays so when another set is
/// committed.
proof fn lemma_forced_survives(m: Seq<(usize, Set<int>)>, x: Set<int>, e: int, i: int, i0: int)
    requires
        unique_ids(m),
        sole_holder(m, e, i),
        x.contains(e),
        0 <= i0 < m.len(),
        i != i0,
    ensures
        forced_id(shrink(m.remove(i0), m[i0].1), x.difference(m[i0].1), m[i].0),
{
    let v = m[i0].1;
    let mr = m.remove(i0);
    let t = strip(mr, v);
    let keep = |j: int| t[j].1 != Set::<int>::empty();
    let m2 = shrink(mr, v);
    lemma_select(t, keep, t.len() as int);
    lemma_unique_after(m, i0, v);
    let ir = if i < i0 { i } else { i - 1 };
    assert(mr[ir] == m[i]);
    assert(!v.contains(e));
    assert(t[ir].1.contains(e));
    assert(keep(ir));
    assert(m2.contains(t[ir]));
    let p = choose|p: int| 0 <= p < m2.len() && m2[p] == t[ir];
    assert forall|q: int| 0 <= q < m2.len() && q != p implies !(#[trigger] m2[q].1.contains(e)) by {
        if m2[q].1.contains(e) {
            assert(m2.contains(m2[q]));
            let jr = choose|jr: int| 0 <= jr < t.len() && keep(jr) && t[jr] == m2[q];
            let j = if jr < i0 { jr } else { jr + 1 };
            assert(mr[jr] == m[j]);
            assert(m[j].1.contains(e));
            assert(j == i);
            assert(jr == ir);
            assert(m2[q].0 == m2[p].0);
        }
    }
    assert(sole_holder(m2, e, p));
    assert(x.difference(v).contains(e));
}

/// The invariant of every node on the search stack.
pub open spec fn node_ok(inst: Seq<(usize, Set<int>)>, n: nat, s: State) -> bool {
    &&& s.sized()
    &&& s.uncovered_elements@.len() == n
    &&& consistent(inst, n, model(s.sets@), s.uncovered_elements.elems(), s.chosen_sets@)
}

/// A node with nothing left uncovered holds a cover in its chosen ids.
proof fn lemma_done_is_cover(inst: Seq<(usize, Set<int>)>, n: nat, s: State)
    requires
        node_ok(inst, n, s),
        s.uncovered_elements.elems() == Set::<int>::empty(),
    ensures
        is_cover(inst, n, s.chosen_sets@),
{
    assert forall|e: int| universe(n).contains(e) implies covered(inst, s.chosen_sets@).contains(e) by {
        if !covered(inst, s.chosen_sets@).contains(e) {
            assert(s.uncovered_elements.elems().contains(e));
        }
    }
}

/// Whether `b` holds no index, as a mathematical set.
proof fn lemma_any_empty(b: Bitset, any: bool)
    requires
        any == crate::bitset::some_true(b@),
    ensures
        !any <==> b.elems() == Set::<int>::empty(),
{
    if any {
        let i = choose|i: int| 0 <= i < b@.len() && b@[i];
        assert(b.elems().contains(i));
    } else {
        assert(b.elems() =~= Set::<int>::empty());
    }
}

/// Offers a complete cover to the incumbent: it replaces the incumbent only
/// when there is none yet or when it is strictly shorter, so the incumbent's
/// length never grows and drops at each replacement.
pub fn offer_incumbent(best: &mut Option<Vec<usize>>, candidate: Vec<usize>) -> (replaced: bool)
    ensures
        replaced == match *old(best) {
            Some(b) => candidate@.len() < b@.len(),
            None => true,
        },
        replaced ==> *final(best) == Some(candidate),
        !replaced ==> *final(best) == *old(best),
        final(best).is_some(),
        match (*old(best), *final(best)) {
            (Some(b), Some(f)) => f@.len() <= b@.len() && (replaced ==> f@.len() < b@.len()),
            _ => true,
        },
{
    if beats(candidate.len(), best) {
        *best = Some(candidate);
        true
    } else {
        false
    }
}

/// A smallest cover of `0 .. element_count` by the sets of `sets`, as a list
/// of their ids, or `None` when no cover exists.
pub fn find_set_cover(sets: Vec<CandidateSet>, element_count: usize) -> (r: Option<Vec<usize>>)
    requires
        element_count <= max_width(),
        widths(sets@, element_count as nat),
        unique_ids(model(sets@)),
    ensures
        match r {
            Some(c) => {
                &&& is_cover(model(sets@), element_count as nat, c@)
                &&& forall|ks: Seq<usize>| is_cover(model(sets@), element_count as nat, ks) ==> c@.len() <= ks.len()
            },
            None => forall|ks: Seq<usize>| !is_cover(model(sets@), element_count as nat, ks),
        },
{
    let ghost inst = model(sets@);
    let ghost n = element_count as nat;
    if element_count == 0 {
        let empty: Vec<usize> = Vec::new();
        assert(universe(n) =~= Set::<int>::empty());
        return Some(empty);
    }
    let set_count = sets.len();
    let mut min_cover: Option<Vec<usize>> = None;
    let initial = State {
        sets,
        uncovered_elements: Bitset::repeat(true, element_count),
        chosen_sets: Vec::with_capacity(set_count),
    };
    proof {
        let s0 = initial;
        assert(s0.uncovered_elements.elems() =~= universe(n));
        assert(covered(inst, s0.chosen_sets@) =~= Set::<int>::empty());
        assert(universe(n).difference(covered(inst, s0.chosen_sets@)) =~= universe(n));
        assert forall|i: int| 0 <= i < inst.len() implies restricts(inst, universe(n), #[trigger] model(s0.sets@)[i]) by {
            assert(s0.sets@[i].elements@.len() == n);
            assert(inst[i].1.intersect(universe(n)) =~= inst[i].1);
        }
        assert(universe(n).contains(0));
    }
    let mut stack: Vec<State> = Vec::new();
    stack.push(initial);
    proof {
        assert forall|ks: Seq<usize>| is_cover(inst, n, ks) implies beaten(min_cover, ks.len()) || exists|i: int|
            0 <= i < stack@.len() && open_below(#[trigger] stack@[i], ks.len()) by {
            lemma_root_open(inst, n, ks);
            assert(stack@[0] == initial);
            assert(model(initial.sets@) == inst);
        }
    }
    while stack.len() > 0
        invariant
            unique_ids(inst),
            n == element_count,
            n > 0,
            forall|i: int| 0 <= i < stack@.len() ==> node_ok(inst, n, #[trigger] stack@[i]),
            forall|i: int| 0 <= i < stack@.len() ==> unique_ids(model((#[trigger] stack@[i]).sets@)),
            forall|i: int| 0 <= i < stack@.len() ==> (#[trigger] stack@[i]).uncovered_elements.elems() != Set::<int>::empty(),
            match min_cover {
                Some(c) => is_cover(inst, n, c@),
                None => true,
            },
            nothing_missed(inst, n, min_cover, stack@),
        decreases weight(stack@),
    {
        let ghost before = stack@;
        let ghost best0 = min_cover;
        let mut state = stack.pop().unwrap();
        let ghost s0 = state;
        proof {
            assert(before.drop_last() == stack@);
            assert(node_ok(inst, n, before[before.len() - 1]));
            assert(unique_ids(model(before[before.len() - 1].sets@)));
            assert(before[before.len() - 1].uncovered_elements.elems() != Set::<int>::empty());
            assert(weight(before) == weight(stack@) + cost(state));
            lemma_cost_pos(state);
        }
        let ghost top = state.sets@.len();
        let ghost popped = stack@;
        proof {
            lemma_pow2_pos((top + 1) as nat);
            assert(cost(state) == pow2((top + 1) as nat) - 1);
            assert(weight(before) == weight(popped) + (pow2((top + 1) as nat) - 1));
        }
        if !worth_expanding(state.chosen_sets.len(), &min_cover) {
            proof {
                assert forall|k: nat| open_below(s0, k) implies beaten(min_cover, k) || exists|i: int|
                    before.len() - 1 <= i < stack@.len() && open_below(#[trigger] stack@[i], k) by {
                    lemma_completion_size(model(s0.sets@), s0.uncovered_elements.elems(), s0.chosen_sets@.len(), k);
                }
                lemma_nothing_missed_after(inst, n, before, stack@, s0, best0, min_cover);
            }
            continue;
        }
        let reduced = remove_dominated(&state.sets, element_count);
        proof {
            lemma_undominated_consistent(inst, n, model(state.sets@), state.uncovered_elements.elems(), state.chosen_sets@);
            lemma_select(model(state.sets@), |i: int| !crate::cover::dominated(model(state.sets@), i), state.sets@.len() as int);
            lemma_select_unique(model(state.sets@), |i: int| !crate::cover::dominated(model(state.sets@), i), state.sets@.len() as int);
            lemma_model_finite(state.sets@);
            assert forall|k: nat| open_below(s0, k) implies completable(undominated(model(s0.sets@)), s0.uncovered_elements.elems(), s0.chosen_sets@.len(), k) by {
                let m = model(s0.sets@);
                let x = s0.uncovered_elements.elems();
                let ts = choose|ts: Seq<Set<int>>| completes(m, x, ts) && s0.chosen_sets@.len() + ts.len() <= k;
                lemma_domination_keeps(m, x, ts);
            }
        }
        state.sets = reduced;
        match scan_uncovered(&state.sets, &state.uncovered_elements) {
            Scan::Infeasible => {
                proof {
                    let e = choose|e: int| state.uncovered_elements.elems().contains(e) && !crate::cover::held(model(state.sets@), e);
                    assert forall|k: nat| open_below(s0, k) implies beaten(min_cover, k) || exists|i: int|
                        before.len() - 1 <= i < stack@.len() && open_below(#[trigger] stack@[i], k) by {
                        assert forall|i: int| 0 <= i < model(state.sets@).len() implies !(#[trigger] model(state.sets@)[i]).1.contains(e) by {
                            if model(state.sets@)[i].1.contains(e) {
                                assert(crate::cover::held(model(state.sets@), e));
                            }
                        }
                        lemma_unheld_blocks(model(state.sets@), state.uncovered_elements.elems(), state.chosen_sets@.len(), k, e);
                    }
                    lemma_nothing_missed_after(inst, n, before, stack@, s0, best0, min_cover);
                }
                continue;
            },
            Scan::Forced(forced) => {
                if forced.len() > 0 {
                    proof {
                        assert forall|q: int| 0 <= q < forced@.len() implies forced_id(model(state.sets@), state.uncovered_elements.elems(), #[trigger] forced@[q]) by {
                            assert(forced@.contains(forced@[q]));
                        }
                    }
                    let mut k: usize = 0;
                    while k < forced.len()
                        invariant
                            unique_ids(inst),
                            n == element_count,
                            node_ok(inst, n, state),
                            unique_ids(model(state.sets@)),
                            state.sets@.len() <= top,
                            k <= forced@.len(),
                            forced@.no_duplicates(),
                            forall|q: int| k <= q < forced@.len() ==> forced_id(model(state.sets@), state.uncovered_elements.elems(), #[trigger] forced@[q]),
                            forall|kk: nat| open_below(s0, kk) ==> #[trigger] open_below(state, kk),
                        decreases forced@.len() - k,
                    {
                        let ghost m = model(state.sets@);
                        let ghost x = state.uncovered_elements.elems();
                        let ghost cl = state.chosen_sets@.len();
                        let ghost st = state;
                        match position_of(&state.sets, forced[k]) {
                            Some(i) => {
                                proof {
                                    assert(forced_id(m, x, forced@[k as int]));
                                    let (e, h) = choose|e: int, h: int| x.contains(e) && #[trigger] sole_holder(m, e, h) && m[h].0 == forced@[k as int];
                                    assert(m[i as int].0 == forced@[k as int]);
                                    assert(h == i);
                                    lemma_commit_consistent(inst, n, m, x, state.chosen_sets@, i as int);
                                    lemma_shrink_len(m, i as int, state.sets@[i as int].elems());
                                    lemma_unique_after(m, i as int, m[i as int].1);
                                    assert forall|q: int| k + 1 <= q < forced@.len() implies forced_id(
                                        shrink(m.remove(i as int), m[i as int].1),
                                        x.difference(m[i as int].1),
                                        #[trigger] forced@[q],
                                    ) by {
                                        let (e2, h2) = choose|e2: int, h2: int| x.contains(e2) && #[trigger] sole_holder(m, e2, h2) && m[h2].0 == forced@[q];
                                        assert(forced@[q] != forced@[k as int]);
                                        lemma_forced_survives(m, x, e2, h2, i as int);
                                    }
                                    assert forall|kk: nat| #[trigger] open_below(st, kk) implies completable(
                                        shrink(m.remove(i as int), m[i as int].1),
                                        x.difference(m[i as int].1),
                                        cl + 1,
                                        kk,
                                    ) by {
                                        let ts = choose|ts: Seq<Set<int>>| completes(m, x, ts) && cl + ts.len() <= kk;
                                        lemma_forced_in_every_completion(m, x, e, i as int, ts);
                                        lemma_commit_keeps(m, x, ts, i as int);
                                        assert(completes(shrink(m.remove(i as int), m[i as int].1), x.difference(m[i as int].1), residue(ts, m[i as int].1)));
                                    }
                                }
                                state.commit(i);
                                proof {
                                    assert forall|kk: nat| open_below(s0, kk) implies #[trigger] open_below(state, kk) by {
                                        assert(open_below(st, kk));
                                    }
                                }
                            },
                            None => {
                                proof {
                                    assert(forced_id(m, x, forced@[k as int]));
                                    let (e, h) = choose|e: int, h: int| x.contains(e) && #[trigger] sole_holder(m, e, h) && m[h].0 == forced@[k as int];
                                    assert(state.sets@[h].id == m[h].0);
                                }
                            },
                        }
                        k += 1;
                    }
                    if !beats(state.chosen_sets.len(), &min_cover) {
                        proof {
                            assert forall|kk: nat| open_below(s0, kk) implies beaten(min_cover, kk) || exists|i: int|
                                before.len() - 1 <= i < stack@.len() && open_below(#[trigger] stack@[i], kk) by {
                                assert(open_below(state, kk));
                                lemma_completion_size(model(state.sets@), state.uncovered_elements.elems(), state.chosen_sets@.len(), kk);
                            }
                            lemma_nothing_missed_after(inst, n, before, stack@, s0, best0, min_cover);
                        }
                        continue;
                    }
                }
            },
        }
        let any_left = state.uncovered_elements.any();
        proof {
            lemma_any_empty(state.uncovered_elements, any_left);
        }
        if !any_left {
            proof {
                lemma_done_is_cover(inst, n, state);
            }
            let ghost cl = state.chosen_sets@.len();
            let ghost st = state;
            offer_incumbent(&mut min_cover, state.chosen_sets);
            proof {
                assert forall|kk: nat| open_below(s0, kk) implies beaten(min_cover, kk) || exists|i: int|
                    before.len() - 1 <= i < stack@.len() && open_below(#[trigger] stack@[i], kk) by {
                    assert(open_below(st, kk));
                    lemma_completion_size(model(st.sets@), st.uncovered_elements.elems(), cl, kk);
                }
                lemma_nothing_missed_after(inst, n, before, stack@, s0, best0, min_cover);
            }
            continue;
        }
        if state.sets.len() == 0 {
            proof {
                let x = state.uncovered_elements.elems();
                assert(exists|e: int| x.contains(e)) by {
                    if !(exists|e: int| x.contains(e)) {
                        assert(x =~= Set::<int>::empty());
                    }
                }
                let e = choose|e: int| x.contains(e);
                assert forall|kk: nat| open_below(s0, kk) implies beaten(min_cover, kk) || exists|i: int|
                    before.len() - 1 <= i < stack@.len() && open_below(#[trigger] stack@[i], kk) by {
                    assert(open_below(state, kk));
                    lemma_unheld_blocks(model(state.sets@), x, state.chosen_sets@.len(), kk, e);
                }
                lemma_nothing_missed_after(inst, n, before, stack@, s0, best0, min_cover);
            }
            continue;
        }
        let index = largest_set(&state.sets);
        let ghost m = model(state.sets@);
        let ghost x = state.uncovered_elements.elems();
        let ghost cl = state.chosen_sets@.len();
        let ghost st = state;
        let mut exclude = state.clone();
        proof {
            assert(model(exclude.sets@) =~= model(state.sets@));
            lemma_remove_consistent(inst, n, model(state.sets@), state.uncovered_elements.elems(), state.chosen_sets@, index as int);
        }
        exclude.sets.remove(index);
        proof {
            assert(model(exclude.sets@) =~= model(state.sets@).remove(index as int));
            lemma_commit_consistent(inst, n, model(state.sets@), state.uncovered_elements.elems(), state.chosen_sets@, index as int);
            lemma_shrink_len(model(state.sets@), index as int, state.sets@[index as int].elems());
            lemma_unique_after(m, index as int, m[index as int].1);
            assert(exclude.uncovered_elements.elems() == x);
        }
        state.commit(index);
        proof {
            lemma_weight_push(stack@, exclude);
            lemma_children_cost(top as nat, exclude.sets@.len(), state.sets@.len());
            lemma_weight_push(stack@.push(exclude), state);
            assert(stack@ == popped);
            assert(exclude.sets@.len() < top);
            assert(state.sets@.len() < top);
            lemma_pow2_pos((exclude.sets@.len() + 1) as nat);
            lemma_pow2_pos((state.sets@.len() + 1) as nat);
            assert(cost(exclude) == pow2((exclude.sets@.len() + 1) as nat) - 1);
            assert(cost(state) == pow2((state.sets@.len() + 1) as nat) - 1);
            assert(weight(stack@.push(exclude).push(state)) < weight(before));
            assert forall|kk: nat| open_below(s0, kk) implies open_below(exclude, kk) || open_below(state, kk) by {
                assert(open_below(st, kk));
                let ts = choose|ts: Seq<Set<int>>| completes(m, x, ts) && cl + ts.len() <= kk;
                if ts.contains(m[index as int].1) {
                    lemma_commit_keeps(m, x, ts, index as int);
                    assert(completes(model(state.sets@), state.uncovered_elements.elems(), residue(ts, m[index as int].1)));
                } else {
                    lemma_exclude_keeps(m, x, ts, index as int);
                    assert(completes(model(exclude.sets@), exclude.uncovered_elements.elems(), ts));
                }
            }
        }
        stack.push(exclude);
        let covered_now = !state.uncovered_elements.any();
        proof {
            lemma_any_empty(state.uncovered_elements, !covered_now);
            assert(stack@[before.len() - 1] == exclude);
        }
        if covered_now {
            proof {
                lemma_done_is_cover(inst, n, state);
            }
            let ghost st2 = state;
            offer_incumbent(&mut min_cover, state.chosen_sets);
            proof {
                assert forall|kk: nat| open_below(s0, kk) implies beaten(min_cover, kk) || exists|i: int|
                    before.len() - 1 <= i < stack@.len() && open_below(#[trigger] stack@[i], kk) by {
                    if !open_below(exclude, kk) {
                        assert(open_below(st2, kk));
                        lemma_completion_size(model(st2.sets@), st2.uncovered_elements.elems(), st2.chosen_sets@.len(), kk);
                    }
                }
                lemma_nothing_missed_after(inst, n, before, stack@, s0, best0, min_cover);
            }
            continue;
        }
        if !worth_expanding(state.chosen_sets.len(), &min_cover) {
            proof {
                assert forall|kk: nat| open_below(s0, kk) implies beaten(min_cover, kk) || exists|i: int|
                    before.len() - 1 <= i < stack@.len() && open_below(#[trigger] stack@[i], kk) by {
                    if !open_below(exclude, kk) {
                        lemma_completion_size(model(state.sets@), state.uncovered_elements.elems(), state.chosen_sets@.len(), kk);
                    }
                }
                lemma_nothing_missed_after(inst, n, before, stack@, s0, best0, min_cover);
            }
            continue;
        }
        proof {
            lemma_weight_push(stack@, state);
        }
        stack.push(state);
        proof {
            assert(stack@[before.len() - 1] == exclude);
            assert(stack@[before.len() as int] == state);
            assert forall|kk: nat| open_below(s0, kk) implies beaten(min_cover, kk) || exists|i: int|
                before.len() - 1 <= i < stack@.len() && open_below(#[trigger] stack@[i], kk) by {
                if open_below(exclude, kk) {
                    assert(open_below(stack@[before.len() - 1], kk));
                } else {
                    assert(open_below(stack@[before.len() as int], kk));
                }
            }
            lemma_nothing_missed_after(inst, n, before, stack@, s0, best0, min_cover);
        }
    }
    proof {
        assert forall|ks: Seq<usize>| is_cover(inst, n, ks) implies beaten(min_cover, ks.len()) by {}
    }
    min_cover
}

} // verus!
