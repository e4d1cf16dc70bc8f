//! A fixed-width set of element indices, stored as a packed bit-vector.
use bitvec::order::Lsb0;
use bitvec::vec::BitVec;
use vstd::prelude::*;

verus! {

/// A set of indices drawn from `0 .. width`, packed into a bitvec `BitVec`.
#[verifier::external_body]
pub struct Bitset {
    bits: BitVec<usize, Lsb0>,
}

/// The bits that a bit-vector holds, in index order.
pub uninterp spec fn bits_of(b: Bitset) -> Seq<bool>;

/// Largest width that bitvec can encode in a `BitVec<usize, _>`.
pub open spec fn max_width() -> nat {
    (usize::MAX / 8) as nat
}

/// Relies on `BitVec::repeat`: `len` copies of `bit`.
#[verifier::external_body]
fn bv_repeat(bit: bool, len: usize) -> (r: Bitset)
    requires
        len <= max_width(),
    ensures
        bits_of(r) == Seq::new(len as nat, |i: int| bit),
{
    Bitset { bits: BitVec::repeat(bit, len) }
}

/// Relies on `BitVec::len`: the number of bits held.
#[verifier::external_body]
fn bv_len(b: &Bitset) -> (r: usize)
    ensures
        r == bits_of(*b).len(),
{
    b.bits.len()
}

/// Relies on `BitSlice`'s `Index<usize>`: the bit at `i`, which must be in bounds.
#[verifier::external_body]
fn bv_get(b: &Bitset, i: usize) -> (r: bool)
    requires
        i < bits_of(*b).len(),
    ensures
        r == bits_of(*b)[i as int],
{
    b.bits[i]
}

/// Relies on `BitSlice::set`: writes the bit at `i`, which must be in bounds.
#[verifier::external_body]
fn bv_set(b: &mut Bitset, i: usize, value: bool)
    requires
        i < bits_of(*old(b)).len(),
    ensures
        bits_of(*final(b)) == bits_of(*old(b)).update(i as int, value),
{
    b.bits.set(i, value)
}

/// The number of `true` entries of `s`.
pub open spec fn count_true(s: Seq<bool>) -> nat
    decreases s.len(),
{
    if s.len() == 0 {
        0
    } else {
        count_true(s.drop_last()) + if s.last() { 1nat } else { 0nat }
    }
}

/// Relies on `BitSlice::count_ones`: the number of bits set.
#[verifier::external_body]
fn bv_count_ones(b: &Bitset) -> (r: usize)
    ensures
        r == count_true(bits_of(*b)),
{
    b.bits.count_ones()
}

/// Whether `s` holds a `true` entry.
pub open spec fn some_true(s: Seq<bool>) -> bool {
    exists|i: int| 0 <= i < s.len() && s[i]
}

/// Relies on `BitSlice::any`: whether some bit is set.
#[verifier::external_body]
fn bv_any(b: &Bitset) -> (r: bool)
    ensures
        r == some_true(bits_of(*b)),
{
    b.bits.any()
}

/// Relies on `BitVec`'s `Clone`: a copy of the same bits.
#[verifier::external_body]
fn bv_clone(b: &Bitset) -> (r: Bitset)
    ensures
        bits_of(r) == bits_of(*b),
{
    Bitset { bits: b.bits.clone() }
}

/// Relies on `BitSlice::iter_ones`: the positions of the set bits, ascending.
#[verifier::external_body]
fn bv_ones(b: &Bitset) -> (r: Vec<usize>)
    ensures
        forall|k: int| 0 <= k < r@.len() ==> (r@[k] as int) < bits_of(*b).len() && bits_of(*b)[r@[k] as int],
        forall|k: int, l: int| 0 <= k < l < r@.len() ==> r@[k] < r@[l],
        forall|i: int| 0 <= i < bits_of(*b).len() && bits_of(*b)[i] ==> r@.contains(i as usize),
{
    b.bits.iter_ones().collect()
}

/// The indices at which `s` holds `true`.
pub open spec fn members(s: Seq<bool>) -> Set<int> {
    Set::new(|i: int| 0 <= i < s.len() && s[i])
}

impl View for Bitset {
    type V = Seq<bool>;

    closed spec fn view(&self) -> Seq<bool> {
        bits_of(*self)
    }
}

impl Bitset {
    /// The indices held, as a mathematical set.
    pub open spec fn elems(&self) -> Set<int> {
        members(self@)
    }

    /// A bitset of the given width with every bit equal to `bit`.
    pub fn repeat(bit: bool, width: usize) -> (r: Bitset)
        requires
            width <= max_width(),
        ensures
            r@ == Seq::new(width as nat, |i: int| bit),
    {
        bv_repeat(bit, width)
    }

    /// The width of the bitset.
    pub fn width(&self) -> (r: usize)
        ensures
            r == self@.len(),
    {
        bv_len(self)
    }

    /// Whether index `i` is in the set.
    pub fn is_set(&self, i: usize) -> (r: bool)
        requires
            i < self@.len(),
        ensures
            r == self@[i as int],
    {
        bv_get(self, i)
    }

    /// Puts index `i` in the set or takes it out.
    pub fn set(&mut self, i: usize, value: bool)
        requires
            i < old(self)@.len(),
        ensures
            final(self)@ == old(self)@.update(i as int, value),
    {
        bv_set(self, i, value)
    }

    /// The number of indices in the set.
    pub fn count_ones(&self) -> (r: usize)
        ensures
            r == count_true(self@),
    {
        bv_count_ones(self)
    }

    /// Whether the set holds any index.
    pub fn any(&self) -> (r: bool)
        ensures
            r == some_true(self@),
    {
        bv_any(self)
    }

    /// The indices in the set, ascending.
    pub fn ones(&self) -> (r: Vec<usize>)
        ensures
            forall|k: int| 0 <= k < r@.len() ==> self.elems().contains(r@[k] as int),
            forall|k: int, l: int| 0 <= k < l < r@.len() ==> r@[k] < r@[l],
            forall|i: int| self.elems().contains(i) ==> r@.contains(i as usize),
    {
        bv_ones(self)
    }
}

impl Clone for Bitset {
    /// An independent copy of the same bits.
    fn clone(&self) -> (r: Self)
        ensures
            r@ == self@,
    {
        bv_clone(self)
    }
}

/// Whether every index of `set` is also in `other`.
pub fn is_subset(set: &Bitset, other: &Bitset) -> (r: bool)
    requires
        set@.len() == other@.len(),
    ensures
        r == set.elems().subset_of(other.elems()),
{
    let n = set.width();
    let mut i: usize = 0;
    while i < n
        invariant
            n == set@.len(),
            n == other@.len(),
            i <= n,
            forall|j: int| 0 <= j < i && set@[j] ==> other@[j],
        decreases n - i,
    {
        if set.is_set(i) && !other.is_set(i) {
            assert(set.elems().contains(i as int) && !other.elems().contains(i as int));
            return false;
        }
        i += 1;
    }
    true
}

/// Takes out of `set` every index that `other` holds.
pub fn assign_difference(set: &mut Bitset, other: &Bitset)
    requires
        old(set)@.len() == other@.len(),
    ensures
        final(set)@.len() == old(set)@.len(),
        forall|i: int| 0 <= i < old(set)@.len() ==> final(set)@[i] == (old(set)@[i] && !other@[i]),
        final(set).elems() == old(set).elems().difference(other.elems()),
{
    let ghost start = set@;
    let n = set.width();
    let mut i: usize = 0;
    while i < n
        invariant
            n == set@.len(),
            n == other@.len(),
            n == start.len(),
            i <= n,
            forall|j: int| 0 <= j < i ==> set@[j] == (start[j] && !other@[j]),
            forall|j: int| i <= j < n ==> set@[j] == start[j],
        decreases n - i,
    {
        let ghost before = set@;
        if other.is_set(i) {
            set.set(i, false);
        }
        assert(set@[i as int] == (start[i as int] && !other@[i as int]));
        assert(forall|j: int| 0 <= j < i ==> set@[j] == before[j]);
        assert(forall|j: int| 0 <= j < i ==> before[j] == (start[j] && !other@[j]));
        i += 1;
    }
    assert forall|x: int| #[trigger] members(set@).contains(x) == members(start).difference(
        members(other@),
    ).contains(x) by {
        if 0 <= x < n {
            assert(set@[x] == (start[x] && !other@[x]));
        }
    }
    assert(members(set@) =~= members(start).difference(members(other@)));
}

} // verus!
