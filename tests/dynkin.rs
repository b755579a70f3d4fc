use dynkin::bitset::{bs_clear, bs_copy, bs_get, bs_set, Bitset, BITSET_WORDS, MAX_SUBSETS};
use dynkin::closure::extend_closure;
use dynkin::driver::{branch_count, count_dynkin_systems};
use dynkin::queue::Queue;
use dynkin::search::inner;

fn family(omega: usize, members: &[usize]) -> Bitset {
    let mut b: Bitset = [0u64; BITSET_WORDS];
    for &m in members {
        assert!(m <= omega);
        bs_set(&mut b, m);
    }
    b
}

fn members_of(b: &Bitset, omega: usize) -> Vec<usize> {
    (0..=omega).filter(|&i| bs_get(b, i)).collect()
}

/// Whether the family given by `mask` (bit i set: subset i is a member) is a Dynkin system.
fn is_dynkin_mask(omega: usize, mask: u64) -> bool {
    let has = |i: usize| (mask >> i) & 1 == 1;
    if !has(0) {
        return false;
    }
    for a in 0..=omega {
        if !has(a) {
            continue;
        }
        if !has(omega ^ a) {
            return false;
        }
        for b in 0..=omega {
            if has(b) && a & b == 0 && !has(a | b) {
                return false;
            }
        }
    }
    true
}

fn brute_force_count(n: usize) -> u64 {
    let omega: usize = (1usize << n) - 1;
    let size = omega + 1;
    let mut count = 0u64;
    for mask in 0u64..(1u64 << size) {
        if is_dynkin_mask(omega, mask) {
            count += 1;
        }
    }
    count
}

fn mask_of(members: &[usize]) -> u64 {
    members.iter().fold(0u64, |acc, &m| acc | (1u64 << m))
}

#[test]
fn empty_ground_set_has_one_system() {
    assert_eq!(count_dynkin_systems(0), 1);
}

#[test]
fn one_element_has_one_system() {
    assert_eq!(count_dynkin_systems(1), 1);
}

#[test]
fn two_elements_have_two_systems() {
    assert_eq!(count_dynkin_systems(2), 2);
}

#[test]
fn three_elements_have_five_systems() {
    assert_eq!(count_dynkin_systems(3), 5);
}

#[test]
fn four_elements_have_nineteen_systems() {
    assert_eq!(count_dynkin_systems(4), 19);
}

#[test]
fn counts_match_brute_force_up_to_four() {
    for n in 0..=3usize {
        assert_eq!(count_dynkin_systems(n), brute_force_count(n));
    }
    let omega = 15usize;
    let mut count = 0u64;
    for rest in 0u64..(1u64 << 14) {
        // subsets 1..=14 vary; the empty set and the whole set are always members
        let mask = 1u64 | (rest << 1) | (1u64 << omega);
        if is_dynkin_mask(omega, mask) {
            count += 1;
        }
    }
    assert_eq!(count_dynkin_systems(4), count);
}

#[test]
fn repeated_counts_agree() {
    for n in 0..=5usize {
        assert_eq!(count_dynkin_systems(n), count_dynkin_systems(n));
    }
}

#[test]
fn counts_do_not_decrease() {
    let mut previous = 0u64;
    for n in 0..=6usize {
        let total = count_dynkin_systems(n);
        assert!(total >= previous);
        previous = total;
    }
}

#[test]
fn closure_adds_complement_and_unions() {
    let omega = 7usize;
    let included = family(omega, &[0, 7]);
    let excluded: Bitset = [0u64; BITSET_WORDS];
    let mut closure: Bitset = [0u64; BITSET_WORDS];
    let mut queue = Queue::new();
    assert!(extend_closure(omega, &included, 1, &excluded, &mut closure, &mut queue));
    assert_eq!(members_of(&closure, omega), vec![0, 1, 6, 7]);
}

#[test]
fn closure_is_least_dynkin_system() {
    let omega = 7usize;
    let included = family(omega, &[0, 7]);
    let excluded: Bitset = [0u64; BITSET_WORDS];
    for x in 1..omega {
        let mut closure: Bitset = [0u64; BITSET_WORDS];
        let mut queue = Queue::new();
        assert!(extend_closure(omega, &included, x, &excluded, &mut closure, &mut queue));
        let got = mask_of(&members_of(&closure, omega));
        assert!(is_dynkin_mask(omega, got));
        let mut least = u64::MAX >> (64 - 8);
        for mask in 0u64..256 {
            let needed = mask_of(&[0, 7, x]);
            if mask & needed == needed && is_dynkin_mask(omega, mask) {
                least &= mask;
            }
        }
        assert_eq!(got, least);
    }
}

#[test]
fn closure_of_two_disjoint_singletons() {
    let omega = 7usize;
    let included = family(omega, &[0, 1, 6, 7]);
    let excluded: Bitset = [0u64; BITSET_WORDS];
    let mut closure: Bitset = [0u64; BITSET_WORDS];
    let mut queue = Queue::new();
    assert!(extend_closure(omega, &included, 2, &excluded, &mut closure, &mut queue));
    assert_eq!(members_of(&closure, omega), vec![0, 1, 2, 3, 4, 5, 6, 7]);
}

#[test]
fn closure_fails_on_excluded_complement() {
    let omega = 7usize;
    let included = family(omega, &[0, 7]);
    let excluded = family(omega, &[6]);
    let mut closure: Bitset = [0u64; BITSET_WORDS];
    let mut queue = Queue::new();
    assert!(!extend_closure(omega, &included, 1, &excluded, &mut closure, &mut queue));
    for mask in 0u64..256 {
        let needed = mask_of(&[0, 7, 1]);
        if mask & needed == needed && is_dynkin_mask(omega, mask) {
            assert!(mask & mask_of(&[6]) != 0);
        }
    }
}

#[test]
fn closure_fails_on_excluded_union() {
    let omega = 7usize;
    let included = family(omega, &[0, 1, 6, 7]);
    let excluded = family(omega, &[3]);
    let mut closure: Bitset = [0u64; BITSET_WORDS];
    let mut queue = Queue::new();
    assert!(!extend_closure(omega, &included, 2, &excluded, &mut closure, &mut queue));
}

#[test]
fn inner_counts_all_systems_from_seed() {
    let omega = 7usize;
    let included = family(omega, &[0, 7]);
    let mut excluded: Bitset = [0u64; BITSET_WORDS];
    let mut queue = Queue::new();
    assert_eq!(inner(omega, 1, &included, &mut excluded, &mut queue, 0), 5);
}

#[test]
fn inner_with_everything_decided_counts_one() {
    let omega = 3usize;
    let included = family(omega, &[0, 3]);
    let mut excluded = family(omega, &[1, 2]);
    let mut queue = Queue::new();
    assert_eq!(inner(omega, 2, &included, &mut excluded, &mut queue, 0), 1);
    assert!(bs_get(&excluded, 1) && bs_get(&excluded, 2));
}

#[test]
fn branch_counts_sum_to_total() {
    let omega = 7usize;
    let included = family(omega, &[0, 7]);
    let mut roots: Vec<Bitset> = vec![[0u64; BITSET_WORDS]];
    for m in 1..4usize {
        let mut next = roots[m - 1];
        bs_set(&mut next, m);
        bs_set(&mut next, omega ^ m);
        roots.push(next);
    }
    let sum: u64 = (1..4usize).map(|m| branch_count(omega, &included, &roots, m)).sum();
    assert_eq!(sum + 1, 5);
    assert_eq!(branch_count(omega, &included, &roots, 1), 2);
    assert_eq!(branch_count(omega, &included, &roots, 2), 1);
    assert_eq!(branch_count(omega, &included, &roots, 3), 1);
}

#[test]
fn bitset_set_get_clear_copy() {
    let mut b: Bitset = [0u64; BITSET_WORDS];
    assert!(!bs_get(&b, 0));
    bs_set(&mut b, 0);
    bs_set(&mut b, 63);
    bs_set(&mut b, 64);
    bs_set(&mut b, MAX_SUBSETS - 1);
    assert!(bs_get(&b, 0) && bs_get(&b, 63) && bs_get(&b, 64) && bs_get(&b, 127));
    assert!(!bs_get(&b, 1) && !bs_get(&b, 65));
    let mut c: Bitset = [0u64; BITSET_WORDS];
    bs_copy(&mut c, &b);
    assert_eq!(c, b);
    bs_clear(&mut b);
    assert_eq!(b, [0u64; BITSET_WORDS]);
}

#[test]
fn queue_push_and_clear() {
    let mut q = Queue::new();
    q.push(5);
    q.push(9);
    assert_eq!(q.len, 2);
    assert_eq!(q.data[0], 5);
    assert_eq!(q.data[1], 9);
    q.clear();
    assert_eq!(q.len, 0);
}

#[test]
fn inner_on_empty_ground_set_counts_one() {
    let omega = 0usize;
    let included = family(omega, &[0]);
    let mut excluded: Bitset = [0u64; BITSET_WORDS];
    let mut queue = Queue::new();
    assert_eq!(inner(omega, 1, &included, &mut excluded, &mut queue, 0), 1);
    assert_eq!(excluded, [0u64; BITSET_WORDS]);
}

#[test]
fn inner_from_zero_counts_all_systems() {
    let omega = 15usize;
    let included = family(omega, &[0, 15]);
    let mut excluded: Bitset = [0u64; BITSET_WORDS];
    let mut queue = Queue::new();
    assert_eq!(inner(omega, 0, &included, &mut excluded, &mut queue, 0), 19);
}

#[test]
fn inner_past_midpoint_counts_one() {
    let omega = 7usize;
    let included = family(omega, &[0, 7]);
    let mut excluded = family(omega, &[1, 2, 3]);
    let mut queue = Queue::new();
    assert_eq!(inner(omega, 6, &included, &mut excluded, &mut queue, 0), 1);
    assert_eq!(members_of(&excluded, omega), vec![1, 2, 3]);
}

#[test]
fn inner_excludes_each_undecided_candidate_and_complement() {
    let omega = 7usize;
    let included = family(omega, &[0, 7]);
    let mut excluded = family(omega, &[1]);
    let mut queue = Queue::new();
    // the candidates 2 and 3 are undecided; 1 is excluded already
    let count = inner(omega, 1, &included, &mut excluded, &mut queue, 0);
    assert_eq!(count, 3);
    assert_eq!(members_of(&excluded, omega), vec![1, 2, 3, 4, 5]);
}

#[test]
fn relabelled_families_have_equal_counts() {
    // swapping the ground elements 0 and 1 sends {0} to {1}, and {1, 2} to {0, 2}
    let omega = 7usize;
    let mut q = Queue::new();
    let a = family(omega, &[0, 1, 6, 7]);
    let b = family(omega, &[0, 2, 5, 7]);
    let mut ea: Bitset = [0u64; BITSET_WORDS];
    let mut eb: Bitset = [0u64; BITSET_WORDS];
    let ca = inner(omega, 1, &a, &mut ea, &mut q, 0);
    let cb = inner(omega, 1, &b, &mut eb, &mut q, 0);
    assert_eq!(ca, cb);
    assert_eq!(ca, 2);
}
