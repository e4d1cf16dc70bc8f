//! Candidate sets, search states, and the reductions applied to them.
use crate::bitset::{assign_difference, is_subset, max_width, Bitset};
use vstd::prelude::*;

verus! {

/// A candidate set: a stable id and the elements it holds.
pub struct CandidateSet {
    pub id: usize,
    pub elements: Bitset,
}

impl CandidateSet {
    /// The elements held, as a mathematical set.
    pub open spec fn elems(&self) -> Set<int> {
        self.elements.elems()
    }
}

impl Clone for CandidateSet {
    fn clone(&self) -> (r: Self)
        ensures
            r.id == self.id,
            r.elements@ == self.elements@,
    {
        CandidateSet { id: self.id, elements: self.elements.clone() }
    }
}

/// The id and elements of each set, in order.
pub open spec fn model(sets: Seq<CandidateSet>) -> Seq<(usize, Set<int>)> {
    Seq::new(sets.len(), |i: int| (sets[i].id, sets[i].elems()))
}

/// Every set of `sets` has width `n`.
pub open spec fn widths(sets: Seq<CandidateSet>, n: nat) -> bool {
    forall|i: int| 0 <= i < sets.len() ==> (#[trigger] sets[i]).elements@.len() == n
}

/// The entries of `s` at the indices below `k` that `keep` accepts, in order.
pub open spec fn select<T>(s: Seq<T>, keep: spec_fn(int) -> bool, k: int) -> Seq<T>
    decreases k,
{
    if k <= 0 {
        Seq::empty()
    } else if keep(k - 1) {
        select(s, keep, k - 1).push(s[k - 1])
    } else {
        select(s, keep, k - 1)
    }
}

/// What `select` holds: exactly the accepted entries below `k`.
pub proof fn lemma_select<T>(s: Seq<T>, keep: spec_fn(int) -> bool, k: int)
    requires
        0 <= k <= s.len(),
    ensures
        select(s, keep, k).len() <= k,
        forall|x: T| #[trigger]
            select(s, keep, k).contains(x) ==> exists|i: int| 0 <= i < k && keep(i) && s[i] == x,
        forall|i: int| 0 <= i < k && keep(i) ==> select(s, keep, k).contains(#[trigger] s[i]),
    decreases k,
{
    if k > 0 {
        lemma_select(s, keep, k - 1);
        let prev = select(s, keep, k - 1);
        if keep(k - 1) {
            assert(select(s, keep, k) == prev.push(s[k - 1]));
            assert forall|x: T| #[trigger]
                select(s, keep, k).contains(x) implies exists|i: int|
                0 <= i < k && keep(i) && s[i] == x by {
                let j = choose|j: int| 0 <= j < prev.len() + 1 && #[trigger] prev.push(s[k - 1])[j] == x;
                if j < prev.len() {
                    assert(prev.contains(x));
                } else {
                    assert(s[k - 1] == x);
                }
            }
            assert forall|i: int| 0 <= i < k && keep(i) implies select(s, keep, k).contains(
                #[trigger] s[i],
            ) by {
                if i < k - 1 {
                    let j = choose|j: int| 0 <= j < prev.len() && #[trigger] prev[j] == s[i];
                    assert(prev.push(s[k - 1])[j] == s[i]);
                } else {
                    assert(prev.push(s[k - 1])[prev.len() as int] == s[i]);
                }
            }
        }
    }
}

/// Copies of the sets of `sets` at the indices that `drop` does not mark.
fn without_flagged(sets: &Vec<CandidateSet>, drop: &Vec<bool>, Ghost(n): Ghost<nat>) -> (r: Vec<
    CandidateSet,
>)
    requires
        drop@.len() == sets@.len(),
        widths(sets@, n),
    ensures
        model(r@) == select(model(sets@), |i: int| !drop@[i], sets@.len() as int),
        widths(r@, n),
{
    let ghost keep = |i: int| !drop@[i];
    let mut r: Vec<CandidateSet> = Vec::new();
    let mut i: usize = 0;
    while i < sets.len()
        invariant
            i <= sets@.len(),
            drop@.len() == sets@.len(),
            keep == (|j: int| !drop@[j]),
            model(r@) == select(model(sets@), keep, i as int),
            widths(sets@, n),
            widths(r@, n),
        decreases sets@.len() - i,
    {
        assert(keep(i as int) == !drop@[i as int]);
        if !drop[i] {
            let c = sets[i].clone();
            let ghost before = r@;
            r.push(c);
            assert(model(r@) =~= model(before).push((sets@[i as int].id, sets@[i as int].elems())));
        }
        assert(model(sets@)[i as int] == (sets@[i as int].id, sets@[i as int].elems()));
        i += 1;
    }
    r
}

/// Two acceptance rules that agree below `k` select the same entries.
pub proof fn lemma_select_agree<T>(
    s: Seq<T>,
    keep1: spec_fn(int) -> bool,
    keep2: spec_fn(int) -> bool,
    k: int,
)
    requires
        forall|i: int| 0 <= i < k ==> #[trigger] keep1(i) == keep2(i),
    ensures
        select(s, keep1, k) == select(s, keep2, k),
    decreases k,
{
    if k > 0 {
        lemma_select_agree(s, keep1, keep2, k - 1);
    }
}

/// `t` makes `s` redundant: `s`'s elements are a strict subset of `t`'s, or the
/// two hold the same elements and `t` has the smaller id.
pub open spec fn dominates(t: (usize, Set<int>), s: (usize, Set<int>)) -> bool {
    s.1.subset_of(t.1) && (s.1 != t.1 || t.0 < s.0)
}

/// Some other set of `m` dominates the one at index `i`.
pub open spec fn dominated(m: Seq<(usize, Set<int>)>, i: int) -> bool {
    exists|j: int| 0 <= j < m.len() && j != i && dominates(m[j], m[i])
}

/// The sets of `m` that no other set dominates, in order.
pub open spec fn undominated(m: Seq<(usize, Set<int>)>) -> Seq<(usize, Set<int>)> {
    select(m, |i: int| !dominated(m, i), m.len() as int)
}

/// Whether `t` dominates `s`.
fn dominates_exec(t: &CandidateSet, s: &CandidateSet) -> (r: bool)
    requires
        t.elements@.len() == s.elements@.len(),
    ensures
        r == dominates((t.id, t.elems()), (s.id, s.elems())),
{
    if !is_subset(&s.elements, &t.elements) {
        return false;
    }
    let back = is_subset(&t.elements, &s.elements);
    if back {
        assert(s.elems() =~= t.elems());
    }
    !back || t.id < s.id
}

/// For each set, whether another set of `sets` dominates it.
pub fn dominated_flags(sets: &Vec<CandidateSet>, width: usize) -> (r: Vec<bool>)
    requires
        widths(sets@, width as nat),
    ensures
        r@.len() == sets@.len(),
        forall|i: int| 0 <= i < sets@.len() ==> r@[i] == dominated(model(sets@), i),
{
    let ghost m = model(sets@);
    let ghost n = width as nat;
    let mut r: Vec<bool> = Vec::new();
    let mut i: usize = 0;
    while i < sets.len()
        invariant
            i <= sets@.len(),
            m == model(sets@),
            widths(sets@, n),
            r@.len() == i,
            forall|k: int| 0 <= k < i ==> r@[k] == dominated(m, k),
        decreases sets@.len() - i,
    {
        let mut found = false;
        let mut j: usize = 0;
        while j < sets.len() && !found
            invariant
                i < sets@.len(),
                j <= sets@.len(),
                m == model(sets@),
                widths(sets@, n),
                !found ==> forall|k: int| 0 <= k < j && k != i ==> !dominates(m[k], m[i as int]),
                found ==> dominated(m, i as int),
            decreases sets@.len() - j + if found { 0int } else { 1int },
        {
            assert(sets@[i as int].elements@.len() == n && sets@[j as int].elements@.len() == n);
            if j != i && dominates_exec(&sets[j], &sets[i]) {
                assert(m[j as int] == (sets@[j as int].id, sets@[j as int].elems()));
                assert(m[i as int] == (sets@[i as int].id, sets@[i as int].elems()));
                found = true;
            } else {
                assert(m[j as int] == (sets@[j as int].id, sets@[j as int].elems()));
                assert(m[i as int] == (sets@[i as int].id, sets@[i as int].elems()));
                j += 1;
            }
        }
        assert(found == dominated(m, i as int));
        r.push(found);
        i += 1;
    }
    r
}

/// The sets of `sets` that no other set dominates, in order. Dominance is
/// decided against the whole input before any set is taken out.
pub fn remove_dominated(sets: &Vec<CandidateSet>, width: usize) -> (r: Vec<CandidateSet>)
    requires
        widths(sets@, width as nat),
    ensures
        model(r@) == undominated(model(sets@)),
        widths(r@, width as nat),
{
    let flags = dominated_flags(sets, width);
    let r = without_flagged(sets, &flags, Ghost(width as nat));
    proof {
        let m = model(sets@);
        lemma_select_agree(m, |i: int| !flags@[i], |i: int| !dominated(m, i), m.len() as int);
    }
    r
}

/// Set `i` of `m` is the only one that holds element `e`.
pub open spec fn sole_holder(m: Seq<(usize, Set<int>)>, e: int, i: int) -> bool {
    &&& 0 <= i < m.len()
    &&& m[i].1.contains(e)
    &&& forall|j: int| 0 <= j < m.len() && j != i ==> !(#[trigger] m[j].1.contains(e))
}

/// Some set of `m` holds element `e`.
pub open spec fn held(m: Seq<(usize, Set<int>)>, e: int) -> bool {
    exists|i: int| 0 <= i < m.len() && (#[trigger] m[i].1.contains(e))
}

/// `id` names the only set of `m` that holds some element of `x`.
pub open spec fn forced_id(m: Seq<(usize, Set<int>)>, x: Set<int>, id: usize) -> bool {
    exists|e: int, i: int| x.contains(e) && #[trigger] sole_holder(m, e, i) && m[i].0 == id
}

/// What counting the holders of each uncovered element finds.
pub enum Scan {
    /// Some uncovered element is held by no set.
    Infeasible,
    /// Every uncovered element is held; these are the ids of the sets that
    /// are the only holder of some uncovered element.
    Forced(Vec<usize>),
}

/// Whether `v` holds `x`.
fn has_id(v: &Vec<usize>, x: usize) -> (r: bool)
    ensures
        r == v@.contains(x),
{
    let mut i: usize = 0;
    while i < v.len()
        invariant
            i <= v@.len(),
            forall|k: int| 0 <= k < i ==> v@[k] != x,
        decreases v@.len() - i,
    {
        if v[i] == x {
            return true;
        }
        i += 1;
    }
    false
}

/// Counts, for each element of `uncovered`, the sets of `sets` that hold it:
/// none makes the state infeasible, exactly one forces that set.
pub fn scan_uncovered(sets: &Vec<CandidateSet>, uncovered: &Bitset) -> (r: Scan)
    requires
        widths(sets@, uncovered@.len()),
        uncovered@.len() <= max_width(),
    ensures
        match r {
            Scan::Infeasible => exists|e: int| uncovered.elems().contains(e) && !held(model(sets@), e),
            Scan::Forced(f) => {
                &&& forall|e: int| uncovered.elems().contains(e) ==> held(model(sets@), e)
                &&& f@.no_duplicates()
                &&& forall|id: usize| f@.contains(id) <==> forced_id(model(sets@), uncovered.elems(), id)
            },
        },
{
    let ghost m = model(sets@);
    let ghost n = uncovered@.len();
    let ghost x = uncovered.elems();
    let ones = uncovered.ones();
    let mut forced: Vec<usize> = Vec::new();
    let mut k: usize = 0;
    while k < ones.len()
        invariant
            k <= ones@.len(),
            m == model(sets@),
            x == uncovered.elems(),
            widths(sets@, n),
            uncovered@.len() == n,
            forall|kk: int| 0 <= kk < ones@.len() ==> x.contains(ones@[kk] as int),
            forall|kk: int| 0 <= kk < k ==> held(m, #[trigger] ones@[kk] as int),
            forced@.no_duplicates(),
            forall|id: usize| #[trigger] forced@.contains(id) <==> exists|kk: int, i: int|
                0 <= kk < k && sole_holder(m, ones@[kk] as int, i) && m[i].0 == id,
        decreases ones@.len() - k,
    {
        let e = ones[k];
        assert(x.contains(e as int));
        assert((e as int) < n);
        let mut count: usize = 0;
        let mut first: usize = 0;
        let mut j: usize = 0;
        while j < sets.len() && count < 2
            invariant
                j <= sets@.len(),
                m == model(sets@),
                widths(sets@, n),
                (e as int) < n,
                count <= 2,
                count == 0 ==> forall|kk: int| 0 <= kk < j ==> !(#[trigger] m[kk].1.contains(e as int)),
                count >= 1 ==> first < j && m[first as int].1.contains(e as int),
                count == 1 ==> forall|kk: int|
                    0 <= kk < j && kk != first ==> !(#[trigger] m[kk].1.contains(e as int)),
                count == 2 ==> exists|kk: int|
                    0 <= kk < j && kk != first && (#[trigger] m[kk].1.contains(e as int)),
            decreases sets@.len() - j,
        {
            assert(sets@[j as int].elements@.len() == n);
            assert(m[j as int].1 == sets@[j as int].elems());
            if sets[j].elements.is_set(e) {
                if count == 0 {
                    first = j;
                } else {
                    assert(m[j as int].1.contains(e as int));
                }
                count += 1;
            }
            j += 1;
        }
        if count == 0 {
            assert(!held(m, e as int));
            return Scan::Infeasible;
        }
        assert(held(m, e as int));
        if count == 1 {
            assert(sole_holder(m, e as int, first as int));
            let id = sets[first].id;
            assert(m[first as int].0 == id);
            let ghost before = forced@;
            if !has_id(&forced, id) {
                forced.push(id);
            }
            assert forall|y: usize| #[trigger] forced@.contains(y) <==> exists|kk: int, i: int|
                0 <= kk < k + 1 && sole_holder(m, ones@[kk] as int, i) && m[i].0 == y by {
                if forced@.contains(y) && !before.contains(y) {
                    assert(y == id);
                    assert(sole_holder(m, ones@[k as int] as int, first as int));
                }
                if exists|kk: int, i: int|
                    0 <= kk < k + 1 && sole_holder(m, ones@[kk] as int, i) && m[i].0 == y {
                    let (kk, i) = choose|kk: int, i: int|
                        0 <= kk < k + 1 && sole_holder(m, ones@[kk] as int, i) && m[i].0 == y;
                    if kk == k {
                        assert(i == first as int);
                        assert(y == id);
                        if before.contains(y) {
                            assert(forced@ == before);
                        } else {
                            assert(forced@ == before.push(id));
                            assert(forced@[before.len() as int] == id);
                        }
                    } else {
                        assert(before.contains(y));
                        if forced@ != before {
                            assert(forced@ == before.push(id));
                            let t = choose|t: int| 0 <= t < before.len() && before[t] == y;
                            assert(forced@[t] == y);
                        }
                    }
                }
            }
        } else {
            assert forall|i: int| !sole_holder(m, e as int, i) by {
                if sole_holder(m, e as int, i) {
                    let kk = choose|kk: int|
                        0 <= kk < j && kk != first && (#[trigger] m[kk].1.contains(e as int));
                    assert(kk == i);
                    assert(first as int == i);
                }
            }
        }
        assert(ones@[k as int] == e);
        k += 1;
    }
    proof {
        assert forall|e: int| x.contains(e) implies held(m, e) by {
            assert(0 <= e < n);
            assert(uncovered.elems().contains(e));
            assert(ones@.contains(e as usize));
            let kk = choose|kk: int| 0 <= kk < ones@.len() && ones@[kk] == e as usize;
            assert(held(m, ones@[kk] as int));
        }
        assert forall|id: usize| forced@.contains(id) <==> forced_id(m, x, id) by {
            if forced_id(m, x, id) {
                let (e, i) = choose|e: int, i: int| x.contains(e) && #[trigger] sole_holder(m, e, i) && m[i].0 == id;
                assert(0 <= e < n);
                assert(uncovered.elems().contains(e));
                assert(ones@.contains(e as usize));
                let kk = choose|kk: int| 0 <= kk < ones@.len() && ones@[kk] == e as usize;
                assert(sole_holder(m, ones@[kk] as int, i));
            }
        }
    }
    Scan::Forced(forced)
}

/// Each set of `m` with the elements of `by` taken out.
pub open spec fn strip(m: Seq<(usize, Set<int>)>, by: Set<int>) -> Seq<(usize, Set<int>)> {
    Seq::new(m.len(), |i: int| (m[i].0, m[i].1.difference(by)))
}

/// The sets of `m` that still hold something once `by` is taken out of each.
pub open spec fn shrink(m: Seq<(usize, Set<int>)>, by: Set<int>) -> Seq<(usize, Set<int>)> {
    let t = strip(m, by);
    select(t, |i: int| t[i].1 != Set::<int>::empty(), t.len() as int)
}

/// A node of the search: the sets still available, the elements not yet
/// covered, and the ids already committed to the partial cover.
pub struct State {
    pub sets: Vec<CandidateSet>,
    pub uncovered_elements: Bitset,
    pub chosen_sets: Vec<usize>,
}

impl Clone for State {
    fn clone(&self) -> (r: Self)
        ensures
            r.sets@.len() == self.sets@.len(),
            forall|i: int| 0 <= i < self.sets@.len() ==> (#[trigger] r.sets@[i]).id == self.sets@[i].id
                && r.sets@[i].elements@ == self.sets@[i].elements@,
            r.uncovered_elements@ == self.uncovered_elements@,
            r.chosen_sets@ == self.chosen_sets@,
    {
        let mut sets: Vec<CandidateSet> = Vec::with_capacity(self.sets.len());
        let mut i: usize = 0;
        while i < self.sets.len()
            invariant
                i <= self.sets@.len(),
                sets@.len() == i,
                forall|k: int| 0 <= k < i ==> (#[trigger] sets@[k]).id == self.sets@[k].id
                    && sets@[k].elements@ == self.sets@[k].elements@,
            decreases self.sets@.len() - i,
        {
            sets.push(self.sets[i].clone());
            i += 1;
        }
        let mut chosen_sets: Vec<usize> = Vec::with_capacity(self.chosen_sets.len());
        let mut k: usize = 0;
        while k < self.chosen_sets.len()
            invariant
                k <= self.chosen_sets@.len(),
                chosen_sets@ == self.chosen_sets@.subrange(0, k as int),
            decreases self.chosen_sets@.len() - k,
        {
            chosen_sets.push(self.chosen_sets[k]);
            k += 1;
            assert(chosen_sets@ =~= self.chosen_sets@.subrange(0, k as int));
        }
        assert(chosen_sets@ =~= self.chosen_sets@);
        State { sets, uncovered_elements: self.uncovered_elements.clone(), chosen_sets }
    }
}

impl State {
    /// Every set of the state has the width of `uncovered_elements`.
    pub open spec fn sized(&self) -> bool {
        &&& widths(self.sets@, self.uncovered_elements@.len())
        &&& self.uncovered_elements@.len() <= max_width()
    }

    /// Commits the set at `index`: it leaves `sets`, its id joins
    /// `chosen_sets`, its elements leave `uncovered_elements` and every other
    /// set, and the sets left empty are dropped.
    pub fn commit(&mut self, index: usize)
        requires
            old(self).sized(),
            index < old(self).sets@.len(),
        ensures
            final(self).sized(),
            final(self).uncovered_elements@.len() == old(self).uncovered_elements@.len(),
            final(self).chosen_sets@ == old(self).chosen_sets@.push(old(self).sets@[index as int].id),
            final(self).uncovered_elements.elems() == old(self).uncovered_elements.elems().difference(
                old(self).sets@[index as int].elems(),
            ),
            model(final(self).sets@) == shrink(
                model(old(self).sets@).remove(index as int),
                old(self).sets@[index as int].elems(),
            ),
    {
        let ghost m = model(self.sets@).remove(index as int);
        let ghost n = self.uncovered_elements@.len();
        let taken = self.sets.remove(index);
        assert(model(self.sets@) =~= m);
        assert(taken.elements@.len() == n);
        self.chosen_sets.push(taken.id);
        assign_difference(&mut self.uncovered_elements, &taken.elements);
        let ghost t = strip(m, taken.elems());
        let ghost keep = |i: int| t[i].1 != Set::<int>::empty();
        let mut kept: Vec<CandidateSet> = Vec::new();
        let mut i: usize = 0;
        while i < self.sets.len()
            invariant
                i <= self.sets@.len(),
                m == model(self.sets@),
                t == strip(m, taken.elems()),
                keep == (|j: int| t[j].1 != Set::<int>::empty()),
                widths(self.sets@, n),
                widths(kept@, n),
                taken.elements@.len() == n,
                model(kept@) == select(t, keep, i as int),
            decreases self.sets@.len() - i,
        {
            assert(self.sets@[i as int].elements@.len() == n);
            let mut rest = self.sets[i].elements.clone();
            assign_difference(&mut rest, &taken.elements);
            assert(t[i as int] == (self.sets@[i as int].id, rest.elems()));
            let nonempty = rest.any();
            proof {
                if nonempty {
                    let j = choose|j: int| 0 <= j < rest@.len() && rest@[j];
                    assert(rest.elems().contains(j));
                } else {
                    assert(rest.elems() =~= Set::<int>::empty());
                }
            }
            assert(keep(i as int) == nonempty);
            if nonempty {
                let ghost before = kept@;
                kept.push(CandidateSet { id: self.sets[i].id, elements: rest });
                assert(model(kept@) =~= model(before).push(t[i as int]));
            }
            i += 1;
        }
        self.sets = kept;
    }
}

} // verus!
