//! Building a validated instance from 1-based element lists.
use crate::bitset::{max_width, Bitset};
use crate::cover::{model, widths, CandidateSet};
use crate::search::unique_ids;
use vstd::prelude::*;

verus! {

/// Why a list of rows does not make an instance.
#[derive(Debug, PartialEq, Eq, Clone, Copy)]
pub enum LoadError {
    /// A token is not a number.
    Parse,
    /// An element index is outside `1 ..= element_count`.
    Range,
    /// The number of rows differs from the declared set count.
    Consistency,
}

/// Some row holds an index outside `1 ..= n`.
pub open spec fn out_of_range(rows: Seq<Seq<usize>>, n: nat) -> bool {
    exists|r: int, k: int|
        0 <= r < rows.len() && 0 <= k < rows[r].len() && (rows[r][k] == 0 || rows[r][k] > n)
}

/// The 0-based elements that a row of 1-based indices names.
pub open spec fn row_elements(row: Seq<usize>) -> Set<int> {
    Set::new(|e: int| exists|k: int| 0 <= k < row.len() && row[k] as int == e + 1)
}

/// Makes one candidate set per row, with the row's position as its id and
/// the row's 1-based indices shifted to 0-based elements of `0 .. element_count`.
pub fn build_instance(element_count: usize, declared_sets: usize, rows: &Vec<Vec<usize>>) -> (r:
    Result<Vec<CandidateSet>, LoadError>)
    requires
        element_count <= max_width(),
    ensures
        match r {
            Ok(sets) => {
                &&& !out_of_range(rows@.map_values(|v: Vec<usize>| v@), element_count as nat)
                &&& rows@.len() == declared_sets
                &&& sets@.len() == rows@.len()
                &&& widths(sets@, element_count as nat)
                &&& unique_ids(model(sets@))
                &&& forall|i: int| 0 <= i < sets@.len() ==> (#[trigger] sets@[i]).id == i
                    && sets@[i].elems() == row_elements(rows@[i]@)
            },
            Err(LoadError::Range) => out_of_range(rows@.map_values(|v: Vec<usize>| v@), element_count as nat),
            Err(LoadError::Consistency) => {
                &&& !out_of_range(rows@.map_values(|v: Vec<usize>| v@), element_count as nat)
                &&& rows@.len() != declared_sets
            },
            Err(LoadError::Parse) => false,
        },
{
    let ghost rs = rows@.map_values(|v: Vec<usize>| v@);
    let ghost n = element_count as nat;
    let mut sets: Vec<CandidateSet> = Vec::with_capacity(rows.len());
    let mut i: usize = 0;
    while i < rows.len()
        invariant
            i <= rows@.len(),
            rs == rows@.map_values(|v: Vec<usize>| v@),
            n == element_count,
            element_count <= max_width(),
            sets@.len() == i,
            widths(sets@, n),
            forall|r: int, k: int| 0 <= r < i && 0 <= k < rs[r].len() ==> 1 <= #[trigger] rs[r][k] <= n,
            forall|j: int| 0 <= j < i ==> (#[trigger] sets@[j]).id == j && sets@[j].elems() == row_elements(rows@[j]@),
        decreases rows@.len() - i,
    {
        let row = &rows[i];
        assert(rs[i as int] == row@);
        let mut elements = Bitset::repeat(false, element_count);
        let mut k: usize = 0;
        while k < row.len()
            invariant
                k <= row@.len(),
                i < rows@.len(),
                rs == rows@.map_values(|v: Vec<usize>| v@),
                row@ == rs[i as int],
                n == element_count,
                elements@.len() == n,
                forall|q: int| 0 <= q < k ==> 1 <= #[trigger] row@[q] <= n,
                forall|e: int| #[trigger] elements.elems().contains(e) <==> exists|q: int| 0 <= q < k && row@[q] as int == e + 1,
            decreases row@.len() - k,
        {
            let v = row[k];
            if v == 0 || v > element_count {
                proof {
                    assert(rs[i as int][k as int] == v);
                    assert(out_of_range(rs, n));
                }
                return Err(LoadError::Range);
            }
            let ghost prev = elements.elems();
            elements.set(v - 1, true);
            proof {
                assert forall|e: int| #[trigger] elements.elems().contains(e) <==> exists|q: int| 0 <= q < k + 1 && row@[q] as int == e + 1 by {
                    if e == v - 1 {
                        assert(row@[k as int] as int == e + 1);
                    } else if elements.elems().contains(e) {
                        assert(prev.contains(e));
                    } else {
                        if exists|q: int| 0 <= q < k + 1 && row@[q] as int == e + 1 {
                            let q = choose|q: int| 0 <= q < k + 1 && row@[q] as int == e + 1;
                            assert(q < k);
                            assert(prev.contains(e));
                        }
                    }
                }
            }
            k += 1;
        }
        proof {
            assert(elements.elems() =~= row_elements(row@));
            assert forall|r: int, q: int| 0 <= r < i + 1 && 0 <= q < rs[r].len() implies 1 <= #[trigger] rs[r][q] <= n by {
                if r == i {
                    assert(rs[r][q] == row@[q]);
                }
            }
        }
        sets.push(CandidateSet { id: i, elements });
        i += 1;
    }
    proof {
        assert(!out_of_range(rs, n)) by {
            if out_of_range(rs, n) {
                let (r, q) = choose|r: int, q: int| 0 <= r < rs.len() && 0 <= q < rs[r].len() && (rs[r][q] == 0 || rs[r][q] > n);
                assert(1 <= rs[r][q] <= n);
            }
        }
    }
    if rows.len() != declared_sets {
        return Err(LoadError::Consistency);
    }
    proof {
        assert forall|a: int, b: int|
            0 <= a < sets@.len() && 0 <= b < sets@.len() && a != b implies (#[trigger] model(sets@)[a]).0 != (
            #[trigger] model(sets@)[b]).0 by {
            assert(sets@[a].id == a && sets@[b].id == b);
        }
    }
    Ok(sets)
}

} // verus!
