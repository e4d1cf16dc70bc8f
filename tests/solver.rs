use set_cover::bitset::{assign_difference, is_subset, Bitset};
use set_cover::cover::{dominated_flags, remove_dominated, scan_uncovered, CandidateSet, Scan, State};
use set_cover::instance::{build_instance, LoadError};
use set_cover::search::{find_set_cover, largest_set, offer_incumbent};

fn bits(width: usize, members: &[usize]) -> Bitset {
    let mut b = Bitset::repeat(false, width);
    for &m in members {
        b.set(m, true);
    }
    b
}

fn set(id: usize, width: usize, members: &[usize]) -> CandidateSet {
    CandidateSet { id, elements: bits(width, members) }
}

fn ids(sets: &[CandidateSet]) -> Vec<usize> {
    sets.iter().map(|s| s.id).collect()
}

fn solve_sorted(sets: Vec<CandidateSet>, width: usize) -> Option<Vec<usize>> {
    find_set_cover(sets, width).map(|mut c| {
        c.sort();
        c
    })
}

fn brute_force_minimum(family: &[Vec<usize>], width: usize) -> Option<usize> {
    let mut best: Option<usize> = None;
    for mask in 0u32..(1u32 << family.len()) {
        let mut hit = vec![false; width];
        for (k, s) in family.iter().enumerate() {
            if mask & (1 << k) != 0 {
                for &e in s {
                    hit[e] = true;
                }
            }
        }
        if hit.iter().all(|&h| h) {
            let size = mask.count_ones() as usize;
            if best.map_or(true, |b| size < b) {
                best = Some(size);
            }
        }
    }
    best
}

fn covers(family: &[Vec<usize>], width: usize, chosen: &[usize]) -> bool {
    let mut hit = vec![false; width];
    for &id in chosen {
        for &e in &family[id] {
            hit[e] = true;
        }
    }
    hit.iter().all(|&h| h)
}

#[test]
fn superset_dominates_the_rest() {
    let sets = vec![set(1, 3, &[0, 1]), set(2, 3, &[1, 2]), set(3, 3, &[0, 1, 2])];
    assert_eq!(solve_sorted(sets, 3), Some(vec![3]));
}

#[test]
fn disjoint_sets_are_both_forced() {
    let sets = vec![set(1, 4, &[0, 1]), set(2, 4, &[2, 3])];
    assert_eq!(solve_sorted(sets, 4), Some(vec![1, 2]));
}

#[test]
fn element_in_no_set_means_no_cover() {
    let sets = vec![set(1, 2, &[0])];
    assert_eq!(find_set_cover(sets, 2), None);
}

#[test]
fn triangle_needs_two_sets() {
    let family = vec![vec![0, 1], vec![1, 2], vec![0, 2]];
    let sets = vec![set(0, 3, &family[0]), set(1, 3, &family[1]), set(2, 3, &family[2])];
    let cover = find_set_cover(sets, 3).unwrap();
    assert_eq!(cover.len(), 2);
    assert!(covers(&family, 3, &cover));
}

#[test]
fn empty_universe_needs_no_set() {
    let sets = vec![set(7, 0, &[])];
    assert_eq!(find_set_cover(sets, 0), Some(vec![]));
}

#[test]
fn no_sets_cannot_cover() {
    assert_eq!(find_set_cover(Vec::new(), 3), None);
}

#[test]
fn matches_brute_force_on_small_instances() {
    let mut seed: u64 = 12345;
    for _round in 0..60 {
        let width = 1 + (seed % 7) as usize;
        seed = seed.wrapping_mul(6364136223846793005).wrapping_add(1442695040888963407);
        let count = 1 + (seed % 8) as usize;
        let mut family = Vec::new();
        for _ in 0..count {
            let mut members = Vec::new();
            for e in 0..width {
                seed = seed.wrapping_mul(6364136223846793005).wrapping_add(1442695040888963407);
                if (seed >> 33) % 3 == 0 {
                    members.push(e);
                }
            }
            family.push(members);
        }
        let sets: Vec<CandidateSet> =
            family.iter().enumerate().map(|(id, m)| set(id, width, m)).collect();
        let result = find_set_cover(sets, width);
        match brute_force_minimum(&family, width) {
            None => assert_eq!(result, None),
            Some(min) => {
                let cover = result.unwrap();
                assert_eq!(cover.len(), min);
                assert!(covers(&family, width, &cover));
            }
        }
    }
}

#[test]
fn bitset_operations() {
    let a = bits(70, &[0, 5, 69]);
    let b = bits(70, &[0, 5, 6, 69]);
    assert!(is_subset(&a, &b));
    assert!(!is_subset(&b, &a));
    assert_eq!(b.count_ones(), 4);
    assert!(b.is_set(6));
    assert!(!b.is_set(7));
    assert_eq!(b.ones(), vec![0, 5, 6, 69]);
    assert_eq!(b.width(), 70);
    let mut c = b.clone();
    assign_difference(&mut c, &a);
    assert_eq!(c.ones(), vec![6]);
    assert!(c.any());
    assign_difference(&mut c, &b);
    assert!(!c.any());
    assert_eq!(c.count_ones(), 0);
}

#[test]
fn domination_keeps_lowest_id_of_equal_sets() {
    let sets = vec![
        set(4, 3, &[0, 1]),
        set(2, 3, &[0, 1]),
        set(9, 3, &[2]),
        set(1, 3, &[0]),
    ];
    assert_eq!(dominated_flags(&sets, 3), vec![true, false, false, true]);
    let kept = remove_dominated(&sets, 3);
    assert_eq!(ids(&kept), vec![2, 9]);
    let again = remove_dominated(&kept, 3);
    assert_eq!(ids(&again), vec![2, 9]);
}

#[test]
fn scan_finds_forced_and_infeasible() {
    let sets = vec![set(1, 4, &[0, 1]), set(2, 4, &[1, 2])];
    match scan_uncovered(&sets, &bits(4, &[0, 1, 2])) {
        Scan::Forced(mut f) => {
            f.sort();
            assert_eq!(f, vec![1, 2]);
        }
        Scan::Infeasible => panic!("every element is held"),
    }
    assert!(matches!(scan_uncovered(&sets, &bits(4, &[0, 3])), Scan::Infeasible));
    let shared = vec![set(1, 2, &[0, 1]), set(2, 2, &[0, 1])];
    match scan_uncovered(&shared, &bits(2, &[0, 1])) {
        Scan::Forced(f) => assert!(f.is_empty()),
        Scan::Infeasible => panic!("every element is held"),
    }
}

#[test]
fn commit_removes_elements_and_empty_sets() {
    let mut state = State {
        sets: vec![set(1, 4, &[0, 1]), set(2, 4, &[1]), set(3, 4, &[1, 2, 3])],
        uncovered_elements: bits(4, &[0, 1, 2, 3]),
        chosen_sets: vec![],
    };
    state.commit(0);
    assert_eq!(state.chosen_sets, vec![1]);
    assert_eq!(state.uncovered_elements.ones(), vec![2, 3]);
    assert_eq!(ids(&state.sets), vec![3]);
    assert_eq!(state.sets[0].elements.ones(), vec![2, 3]);
    let copy = state.clone();
    assert_eq!(copy.chosen_sets, vec![1]);
    assert_eq!(copy.sets[0].elements.ones(), vec![2, 3]);
}

#[test]
fn largest_set_takes_first_of_equal_counts() {
    let sets = vec![set(1, 4, &[0]), set(2, 4, &[1, 2]), set(3, 4, &[0, 3])];
    assert_eq!(largest_set(&sets), 1);
}

#[test]
fn incumbent_only_shrinks() {
    let mut best: Option<Vec<usize>> = None;
    assert!(offer_incumbent(&mut best, vec![1, 2, 3]));
    assert!(!offer_incumbent(&mut best, vec![4, 5, 6]));
    assert_eq!(best, Some(vec![1, 2, 3]));
    assert!(offer_incumbent(&mut best, vec![7]));
    assert_eq!(best, Some(vec![7]));
}

#[test]
fn build_instance_shifts_to_zero_based() {
    let rows = vec![vec![1, 3], vec![2], vec![]];
    let sets = build_instance(3, 3, &rows).unwrap();
    assert_eq!(ids(&sets), vec![0, 1, 2]);
    assert_eq!(sets[0].elements.ones(), vec![0, 2]);
    assert_eq!(sets[1].elements.ones(), vec![1]);
    assert_eq!(sets[2].elements.ones(), Vec::<usize>::new());
    assert_eq!(sets[0].elements.width(), 3);
    assert_eq!(find_set_cover(sets, 3).map(|mut c| { c.sort(); c }), Some(vec![0, 1]));
}

#[test]
fn build_instance_rejects_bad_rows() {
    assert_eq!(build_instance(3, 1, &vec![vec![0]]).err(), Some(LoadError::Range));
    assert_eq!(build_instance(3, 1, &vec![vec![4]]).err(), Some(LoadError::Range));
    assert_eq!(build_instance(3, 2, &vec![vec![1, 2, 3]]).err(), Some(LoadError::Consistency));
    assert_eq!(build_instance(3, 5, &vec![vec![9]]).err(), Some(LoadError::Range));
}
