use vstd::prelude::*;
use rayon::iter::{IntoParallelIterator, ParallelIterator};
use crate::bitset::{Bitset, BITSET_WORDS, MAX_N, members, bs_clear, bs_get, bs_set};
use crate::closure::{is_universe, is_dynkin, extend_closure};
use crate::queue::Queue;
use crate::search::{half_of, completions, pow2, inner, lemma_half, lemma_split_len,
    lemma_exclude_branch, lemma_include_branch, lemma_include_dead, lemma_completions_decided,
    lemma_pow2_fits, lemma_pow2_mono, lemma_families_finite, families_below};
use crate::closure::lemma_bits;
use vstd::relations::injective_on;

verus! {

/// The bit pattern of the whole ground set of `n` elements.
pub open spec fn universe_mask(n: nat) -> usize {
    (pow2(n) - 1) as usize
}

/// All Dynkin systems on the ground set `omega`.
pub open spec fn dynkin_systems(omega: usize) -> Set<Set<usize>> {
    Set::new(|d: Set<usize>| is_dynkin(omega, d))
}

/// Subsets excluded once every candidate `1..=k` has been turned down: those candidates and
/// their complements.
pub open spec fn prefix_excluded(omega: usize, k: nat) -> Set<usize>
    decreases k,
{
    if k == 0 {
        Set::empty()
    } else {
        prefix_excluded(omega, (k - 1) as nat).insert(k as usize).insert(omega ^ (k as usize))
    }
}

/// How many Dynkin systems containing `inc` have `m` as their least member below the midpoint
/// outside `inc`; zero when `m` is already decided.
pub open spec fn branch_value(omega: usize, inc: Set<usize>, m: nat) -> nat {
    let exc = prefix_excluded(omega, (m - 1) as nat);
    if inc.contains(m as usize) || exc.contains(m as usize) {
        0
    } else {
        completions(omega, inc, exc).filter(|d: Set<usize>| d.contains(m as usize)).len()
    }
}

/// The sum of `branch_value` over the candidates `1..hi`.
pub open spec fn branch_sum(omega: usize, inc: Set<usize>, hi: nat) -> nat
    decreases hi,
{
    if hi <= 1 {
        0
    } else {
        branch_sum(omega, inc, (hi - 1) as nat) + branch_value(omega, inc, (hi - 1) as nat)
    }
}

proof fn lemma_prefix_members(omega: usize, k: nat)
    requires
        is_universe(omega),
        k < half_of(omega),
    ensures
        forall|y: usize| 1 <= y <= k ==> #[trigger] prefix_excluded(omega, k).contains(y),
        forall|y: usize|
            #[trigger] prefix_excluded(omega, k).contains(y) ==> (1 <= y <= k || half_of(omega)
                <= y <= omega),
    decreases k,
{
    if k > 0 {
        let ku: usize = k as usize;
        lemma_prefix_members(omega, (k - 1) as nat);
        lemma_half(omega, ku);
        assert(prefix_excluded(omega, k) == prefix_excluded(omega, (k - 1) as nat).insert(ku).insert(
            omega ^ ku,
        ));
    } else {
        assert(prefix_excluded(omega, k) == Set::<usize>::empty());
    }
}

/// Counts the Dynkin systems containing `included` whose least member below the midpoint outside
/// `included` is `m`, given that the candidates `1..m` were all turned down.
pub fn branch_count(omega: usize, included: &Bitset, root_excluded: &Vec<Bitset>, m: usize) -> (r:
    u64)
    requires
        is_universe(omega),
        is_dynkin(omega, members(*included)),
        1 <= m < half_of(omega),
        m <= root_excluded.len(),
        members(root_excluded[m - 1]) == prefix_excluded(omega, (m - 1) as nat),
    ensures
        r == branch_value(omega, members(*included), m as nat),
        r <= pow2((half_of(omega) - m - 1) as nat),
{
    let ghost inc = members(*included);
    let ghost exc = prefix_excluded(omega, (m - 1) as nat);
    proof {
        lemma_half(omega, m);
        lemma_prefix_members(omega, (m - 1) as nat);
    }
    let ex_here: &Bitset = &root_excluded[m - 1];
    if bs_get(included, m) || bs_get(ex_here, m) {
        return 0;
    }
    let mut closure: Bitset = [0u64; BITSET_WORDS];
    let mut queue: Queue = Queue::new();
    let mut count: u64 = 0;
    if extend_closure(omega, included, m, ex_here, &mut closure, &mut queue) {
        let mut new_exc: Bitset = *ex_here;
        bs_set(&mut new_exc, m);
        bs_set(&mut new_exc, omega ^ m);
        let ghost c = members(closure);
        proof {
            assert(c.contains(omega ^ m));
            assert forall|y: usize| y < m + 1 implies c.contains(y) || #[trigger] members(
                new_exc,
            ).contains(y) by {
                if y == 0 {
                    assert(inc.subset_of(c));
                }
            }
            assert(completions(omega, c, members(new_exc)) =~= completions(omega, c, exc));
            lemma_include_branch(omega, inc, exc, m, c);
        }
        count = count + inner(omega, m + 1, &closure, &mut new_exc, &mut queue, 0);
    } else {
        proof {
            lemma_include_dead(omega, inc, exc, m);
        }
    }
    count
}

/// Each candidate's branch count, summed over `1..k` and over what is left after turning them
/// all down, makes up all completions.
proof fn lemma_branch_sum(omega: usize, inc: Set<usize>, k: nat)
    requires
        is_universe(omega),
        is_dynkin(omega, inc),
        k == 0 || k < half_of(omega),
        forall|m: usize| 1 <= m < half_of(omega) ==> !#[trigger] inc.contains(m),
    ensures
        branch_sum(omega, inc, k + 1) + completions(omega, inc, prefix_excluded(omega, k)).len()
            == completions(omega, inc, Set::empty()).len(),
    decreases k,
{
    if k == 0 {
        assert(prefix_excluded(omega, 0) == Set::<usize>::empty());
    } else {
        let ku: usize = k as usize;
        let before = prefix_excluded(omega, (k - 1) as nat);
        lemma_branch_sum(omega, inc, (k - 1) as nat);
        lemma_prefix_members(omega, (k - 1) as nat);
        lemma_half(omega, ku);
        assert(!before.contains(ku));
        assert(!inc.contains(ku));
        lemma_split_len(omega, inc, before, ku);
        lemma_exclude_branch(omega, inc, before, ku);
        assert(prefix_excluded(omega, k) == before.insert(ku).insert(omega ^ ku));
        assert(branch_value(omega, inc, k) == completions(omega, inc, before).filter(
            |d: Set<usize>| d.contains(ku),
        ).len());
    }
}

/// The number of Dynkin systems is one more than the sum of the branch counts.
proof fn lemma_total(omega: usize)
    requires
        is_universe(omega),
        is_dynkin(omega, set![0usize, omega]),
    ensures
        dynkin_systems(omega).len() == branch_sum(omega, set![0usize, omega], half_of(omega) as nat)
            + 1,
{
    let inc = set![0usize, omega];
    let h = half_of(omega);
    lemma_half(omega, 0);
    assert forall|m: usize| 1 <= m < h implies !#[trigger] inc.contains(m) by {
        lemma_half(omega, omega);
    }
    let k: nat = if h == 0 { 0 } else { (h - 1) as nat };
    lemma_branch_sum(omega, inc, k);
    if h > 0 {
        lemma_prefix_members(omega, k);
    }
    assert forall|y: usize| y < h implies inc.contains(y) || #[trigger] prefix_excluded(
        omega,
        k,
    ).contains(y) by {}
    lemma_completions_decided(omega, inc, prefix_excluded(omega, k));
    assert(set![inc].len() == 1);
    assert(branch_sum(omega, inc, k + 1) == branch_sum(omega, inc, h as nat));
    assert forall|d: Set<usize>| dynkin_systems(omega).contains(d) implies completions(
        omega,
        inc,
        Set::empty(),
    ).contains(d) by {
        assert(omega ^ 0usize == omega) by (bit_vector);
        assert(d.contains(omega ^ 0usize));
        assert(inc.subset_of(d));
    }
    assert(dynkin_systems(omega) =~= completions(omega, inc, Set::empty()));
}

/// Relies on rayon's `into_par_iter` over the range `1..limit`, `map` and `collect` into a `Vec`,
/// which keeps the order of the range: element `i` is what `branch_count` returned for
/// `m = i + 1`, so that function's postcondition holds of it.
#[verifier::external_body]
fn par_branch_counts(omega: usize, included: &Bitset, root_excluded: &Vec<Bitset>, limit: usize)
    -> (r: Vec<u64>)
    requires
        is_universe(omega),
        is_dynkin(omega, members(*included)),
        limit == half_of(omega),
        root_excluded.len() == limit,
        forall|k: int|
            0 <= k < limit ==> members(#[trigger] root_excluded[k]) == prefix_excluded(
                omega,
                k as nat,
            ),
    ensures
        r.len() == if limit == 0 {
            0
        } else {
            limit - 1
        },
        forall|i: int|
            0 <= i < r.len() ==> #[trigger] r[i] == branch_value(
                omega,
                members(*included),
                (i + 1) as nat,
            ) && r[i] <= pow2((half_of(omega) - i - 2) as nat),
{
    (1..limit).into_par_iter().map(|m| branch_count(omega, included, root_excluded, m)).collect()
}

/// Counts the Dynkin systems on a ground set of `n` elements.
pub fn count_dynkin_systems(n: usize) -> (total: u64)
    requires
        n <= MAX_N,
    ensures
        total == dynkin_systems(universe_mask(n as nat)).len(),
{
    let mut omega: usize = 0;
    let mut i: usize = 0;
    assert(0usize & 1usize == 0) by (bit_vector);
    while i < n
        invariant
            i <= n <= MAX_N,
            omega + 1 == pow2(i as nat),
            is_universe(omega),
        decreases n - i,
    {
        proof {
            crate::search::lemma_pow2_mono(i as nat, 6);
            reveal_with_fuel(pow2, 7);
            let w: usize = omega;
            assert(((2 * w + 1) as usize) & ((2 * w + 2) as usize) == 0 && 2 * w + 1 < 128)
                by (bit_vector)
                requires
                    w < 64,
                    w & ((w + 1) as usize) == 0,
            ;
        }
        omega = 2 * omega + 1;
        i = i + 1;
    }
    let mut included: Bitset = [0u64; BITSET_WORDS];
    bs_clear(&mut included);
    bs_set(&mut included, 0);
    bs_set(&mut included, omega);
    let ghost inc = members(included);
    proof {
        assert(inc =~= set![0usize, omega]);
        lemma_half(omega, 0);
        lemma_half(omega, omega);
        assert(omega & 0usize == 0 && omega | 0usize == omega && 0usize | omega == omega
            && 0usize | 0usize == 0usize) by (bit_vector);
        assert(omega & omega == omega && omega | omega == omega) by (bit_vector);
        assert(omega ^ 0usize == omega && omega ^ omega == 0usize) by (bit_vector);
        assert forall|y: usize| inc.contains(y) implies #[trigger] inc.contains(omega ^ y) by {}
        assert forall|a: usize, b: usize|
            inc.contains(a) && inc.contains(b) && a & b == 0 implies #[trigger] inc.contains(a | b) by {
        }
        assert(is_dynkin(omega, inc));
    }
    let limit: usize = (omega + 1) >> 1;
    let mut root_excluded: Vec<Bitset> = Vec::new();
    if limit > 0 {
        let mut first: Bitset = [0u64; BITSET_WORDS];
        bs_clear(&mut first);
        root_excluded.push(first);
        assert(prefix_excluded(omega, 0) == Set::<usize>::empty());
    }
    let mut m: usize = 1;
    while m < limit
        invariant
            is_universe(omega),
            limit == half_of(omega),
            limit <= 64,
            1 <= m,
            limit > 0 ==> m <= limit,
            root_excluded.len() == if limit == 0 {
                0
            } else {
                m as int
            },
            forall|k: int|
                0 <= k < root_excluded.len() ==> members(#[trigger] root_excluded[k])
                    == prefix_excluded(omega, k as nat),
        decreases limit - m,
    {
        let mut next: Bitset = root_excluded[m - 1];
        proof {
            lemma_half(omega, m);
        }
        bs_set(&mut next, m);
        bs_set(&mut next, omega ^ m);
        root_excluded.push(next);
        m = m + 1;
    }
    let counts: Vec<u64> = par_branch_counts(omega, &included, &root_excluded, limit);
    let mut sum: u64 = 0;
    let mut j: usize = 0;
    proof {
        if limit > 0 {
            lemma_pow2_fits((limit - 1) as nat);
        }
    }
    while j < counts.len()
        invariant
            is_universe(omega),
            limit == half_of(omega),
            limit <= 64,
            counts.len() == if limit == 0 {
                0
            } else {
                limit - 1
            },
            j <= counts.len(),
            forall|i: int|
                0 <= i < counts.len() ==> #[trigger] counts[i] == branch_value(
                    omega,
                    inc,
                    (i + 1) as nat,
                ) && counts[i] <= pow2((half_of(omega) - i - 2) as nat),
            sum == branch_sum(omega, inc, (j + 1) as nat),
            limit > 0 ==> sum + pow2((limit - 1 - j) as nat) <= pow2((limit - 1) as nat),
            limit > 0 ==> pow2((limit - 1) as nat) <= 0x8000_0000_0000_0000,
        decreases counts.len() - j,
    {
        let c: u64 = counts[j];
        proof {
            assert(pow2((limit - 1 - j) as nat) == 2 * pow2((limit - 2 - j) as nat));
        }
        sum = sum + c;
        j = j + 1;
    }
    proof {
        lemma_total(omega);
        assert(inc == set![0usize, omega]);
        if limit > 0 {
            assert(pow2(0) == 1);
        }
        assert(universe_mask(n as nat) == omega);
    }
    sum + 1
}

/// Counting twice for the same ground-set size gives the same total, however the parallel work
/// was scheduled: each total is the number of Dynkin systems on that ground set.
pub proof fn lemma_count_deterministic(n: usize, first: u64, second: u64)
    requires
        n <= MAX_N,
        first == dynkin_systems(universe_mask(n as nat)).len(),
        second == dynkin_systems(universe_mask(n as nat)).len(),
    ensures
        first == second,
{
}

/// The family on the ground set `2 * omega + 1`, one element larger, whose members are the
/// subsets whose part inside `omega` belongs to `d`.
pub open spec fn lift(omega: usize, d: Set<usize>) -> Set<usize> {
    Set::new(|a: usize| a <= 2 * omega + 1 && d.contains(a & omega))
}

proof fn lemma_universe_mask(k: nat)
    requires
        k <= MAX_N,
    ensures
        universe_mask(k) + 1 == pow2(k),
        is_universe(universe_mask(k)),
        k < MAX_N ==> universe_mask(k) < 64,
        k < MAX_N ==> universe_mask(k + 1) == 2 * universe_mask(k) + 1,
    decreases k,
{
    lemma_pow2_mono(0, k);
    reveal_with_fuel(pow2, 2);
    if k == 0 {
        assert(0usize & 1usize == 0) by (bit_vector);
    } else {
        lemma_universe_mask((k - 1) as nat);
        let w: usize = universe_mask((k - 1) as nat);
        assert(((2 * w + 1) as usize) & ((2 * w + 2) as usize) == 0) by (bit_vector)
            requires
                w < 64,
                w & ((w + 1) as usize) == 0,
        ;
    }
    if k < MAX_N {
        lemma_pow2_mono(k, 6);
        reveal_with_fuel(pow2, 7);
    }
}

proof fn lemma_lift_bits(omega: usize, big: usize, a: usize, b: usize)
    requires
        omega < 64,
        big == 2 * omega + 1,
        omega & ((omega + 1) as usize) == 0,
    ensures
        (big ^ a) & omega == omega ^ (a & omega),
        a & b == 0 ==> (a & omega) & (b & omega) == 0,
        (a | b) & omega == (a & omega) | (b & omega),
        a <= omega ==> a & omega == a,
        a & omega <= omega,
        0usize & omega == 0,
{
    assert((big ^ a) & omega == omega ^ (a & omega)) by (bit_vector)
        requires
            omega < 64,
            big == omega + omega + 1,
            omega & ((omega + 1) as usize) == 0,
    ;
    assert(a & b == 0 ==> (a & omega) & (b & omega) == 0) by (bit_vector);
    assert((a | b) & omega == (a & omega) | (b & omega)) by (bit_vector);
    assert(a <= omega ==> a & omega == a) by (bit_vector)
        requires
            omega < 64,
            omega & ((omega + 1) as usize) == 0,
    ;
    assert(a & omega <= omega && 0usize & omega == 0) by (bit_vector);
}

proof fn lemma_lift_dynkin(omega: usize, d: Set<usize>)
    requires
        omega < 64,
        is_universe(omega),
        is_universe((2 * omega + 1) as usize),
        is_dynkin(omega, d),
    ensures
        is_dynkin((2 * omega + 1) as usize, lift(omega, d)),
{
    let big: usize = (2 * omega + 1) as usize;
    let l = lift(omega, d);
    lemma_lift_bits(omega, big, 0, 0);
    assert(l.contains(0));
    assert forall|a: usize| l.contains(a) implies #[trigger] l.contains(big ^ a) by {
        lemma_lift_bits(omega, big, a, a);
        lemma_bits(big, a, a);
        assert(d.contains(omega ^ (a & omega)));
    }
    assert forall|a: usize, b: usize|
        l.contains(a) && l.contains(b) && a & b == 0 implies #[trigger] l.contains(a | b) by {
        lemma_lift_bits(omega, big, a, b);
        lemma_bits(big, a, b);
        assert(d.contains((a & omega) | (b & omega)));
    }
}

proof fn lemma_dynkin_systems_finite(omega: usize)
    requires
        is_universe(omega),
    ensures
        dynkin_systems(omega).finite(),
{
    lemma_families_finite(128);
    assert forall|d: Set<usize>| dynkin_systems(omega).contains(d) implies families_below(
        128,
    ).contains(d) by {
        assert forall|y: usize| #[trigger] d.contains(y) implies y < 128 by {}
    }
    vstd::set_lib::lemma_len_subset(dynkin_systems(omega), families_below(128));
}

/// A ground set with one more element carries at least as many Dynkin systems.
pub proof fn lemma_counts_grow(n: usize)
    requires
        n < MAX_N,
    ensures
        dynkin_systems(universe_mask(n as nat)).len() <= dynkin_systems(
            universe_mask((n + 1) as nat),
        ).len(),
{
    lemma_universe_mask(n as nat);
    lemma_universe_mask((n + 1) as nat);
    let omega = universe_mask(n as nat);
    let big = universe_mask((n + 1) as nat);
    let small_sys = dynkin_systems(omega);
    let f = |d: Set<usize>| lift(omega, d);
    let image = small_sys.map(f);
    lemma_dynkin_systems_finite(omega);
    lemma_dynkin_systems_finite(big);
    assert forall|x1: Set<usize>, x2: Set<usize>|
        small_sys.contains(x1) && small_sys.contains(x2) && #[trigger] f(x1) == #[trigger] f(x2)
            implies x1 == x2 by {
        assert forall|y: usize| x1.contains(y) <==> x2.contains(y) by {
            lemma_lift_bits(omega, big, y, y);
            if x1.contains(y) {
                assert(lift(omega, x1).contains(y));
            }
            if x2.contains(y) {
                assert(lift(omega, x2).contains(y));
            }
        }
        assert(x1 =~= x2);
    }
    assert(injective_on(f, small_sys));
    vstd::set_lib::lemma_map_size(small_sys, image, f);
    assert forall|l: Set<usize>| image.contains(l) implies dynkin_systems(big).contains(l) by {
        let d = choose|d: Set<usize>| small_sys.contains(d) && f(d) == l;
        lemma_lift_dynkin(omega, d);
    }
    vstd::set_lib::lemma_len_subset(image, dynkin_systems(big));
}

} // verus!
