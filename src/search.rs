use vstd::prelude::*;
use crate::bitset::{Bitset, BITSET_WORDS, MAX_SUBSETS, members, bs_get, bs_set};
use crate::closure::{is_universe, is_dynkin, avoids, extends, is_closure_of, extend_closure};
use crate::queue::Queue;

verus! {

/// The subsets below the midpoint `(omega + 1) / 2`; each pairs with its complement above it.
pub open spec fn half_of(omega: usize) -> usize {
    ((omega + 1) / 2) as usize
}

/// The Dynkin systems on `omega` that contain `inc` and whose other members avoid `exc`.
pub open spec fn completions(omega: usize, inc: Set<usize>, exc: Set<usize>) -> Set<Set<usize>> {
    Set::new(|d: Set<usize>| is_dynkin(omega, d) && inc.subset_of(d) && avoids(d, inc, exc))
}

/// Two to the power `k`.
pub open spec fn pow2(k: nat) -> nat
    decreases k,
{
    if k == 0 {
        1
    } else {
        2 * pow2((k - 1) as nat)
    }
}

/// Families of subsets whose members are all below `n`.
pub open spec fn families_below(n: usize) -> Set<Set<usize>> {
    Set::new(|s: Set<usize>| forall|y: usize| #[trigger] s.contains(y) ==> y < n)
}

pub proof fn lemma_families_finite(n: usize)
    ensures
        families_below(n).finite(),
    decreases n,
{
    if n == 0 {
        assert(families_below(n) =~= set![Set::<usize>::empty()]) by {
            assert forall|s: Set<usize>| families_below(n).contains(s) implies s
                == Set::<usize>::empty() by {
                assert(s =~= Set::<usize>::empty());
            }
        }
    } else {
        let m: usize = (n - 1) as usize;
        lemma_families_finite(m);
        let f = |s: Set<usize>| s.insert(m);
        families_below(m).lemma_map_finite(f);
        let both = families_below(m).union(families_below(m).map(f));
        assert forall|s: Set<usize>| families_below(n).contains(s) implies both.contains(s) by {
            if s.contains(m) {
                let r = s.remove(m);
                assert(families_below(m).contains(r));
                assert(r.insert(m) =~= s);
                assert(families_below(m).map(f).contains(f(r)));
            } else {
                assert(families_below(m).contains(s));
            }
        }
        assert(families_below(n).subset_of(both));
        vstd::set_lib::lemma_len_subset(families_below(n), both);
    }
}

pub proof fn lemma_completions_finite(omega: usize, inc: Set<usize>, exc: Set<usize>)
    requires
        is_universe(omega),
    ensures
        completions(omega, inc, exc).finite(),
{
    lemma_families_finite(MAX_SUBSETS);
    assert forall|d: Set<usize>| completions(omega, inc, exc).contains(d) implies families_below(
        MAX_SUBSETS,
    ).contains(d) by {
        assert forall|y: usize| #[trigger] d.contains(y) implies y < MAX_SUBSETS by {}
    }
    vstd::set_lib::lemma_len_subset(completions(omega, inc, exc), families_below(MAX_SUBSETS));
}

pub proof fn lemma_half(omega: usize, y: usize)
    requires
        is_universe(omega),
        y <= omega,
    ensures
        half_of(omega) == (omega + 1) as usize >> 1,
        half_of(omega) <= 64,
        omega > 0 && y >= half_of(omega) ==> omega ^ y < half_of(omega),
        omega ^ (omega ^ y) == y,
        omega ^ y <= omega,
        y < half_of(omega) ==> omega ^ y >= half_of(omega),
{
    let w: usize = (omega + 1) as usize;
    assert(w >> 1 == w / 2) by (bit_vector);
    assert(omega > 0 && y >= (w >> 1) ==> omega ^ y < (w >> 1)) by (bit_vector)
        requires
            w == omega + 1,
            omega < 128,
            omega & w == 0,
            y <= omega,
    ;
    assert(y < (w >> 1) ==> omega ^ y >= (w >> 1)) by (bit_vector)
        requires
            w == omega + 1,
            omega < 128,
            omega & w == 0,
            y <= omega,
    ;
    assert(omega ^ (omega ^ y) == y) by (bit_vector);
    assert(omega ^ y <= omega) by (bit_vector)
        requires
            w == omega + 1,
            omega < 128,
            omega & w == 0,
            y <= omega,
    ;
}

/// Once every subset below the midpoint is decided, the only completion is `inc` itself.
pub proof fn lemma_completions_decided(omega: usize, inc: Set<usize>, exc: Set<usize>)
    requires
        is_universe(omega),
        is_dynkin(omega, inc),
        forall|y: usize| y < half_of(omega) ==> inc.contains(y) || #[trigger] exc.contains(y),
    ensures
        completions(omega, inc, exc) == set![inc],
{
    assert forall|d: Set<usize>| completions(omega, inc, exc).contains(d) implies d == inc by {
        assert forall|y: usize| d.contains(y) implies inc.contains(y) by {
            assert(y <= omega);
            lemma_half(omega, y);
            if y == 0 {
            } else if y < half_of(omega) {
                if !inc.contains(y) {
                    assert(exc.contains(y));
                }
            } else {
                let c = omega ^ y;
                assert(d.contains(omega ^ y));
                if !inc.contains(c) {
                    assert(exc.contains(c));
                    assert(d.contains(c));
                } else {
                    assert(inc.contains(omega ^ c));
                }
            }
        }
        assert(d =~= inc);
    }
    assert(completions(omega, inc, exc).contains(inc));
    assert(completions(omega, inc, exc) =~= set![inc]);
}

pub proof fn lemma_pow2_mono(a: nat, b: nat)
    requires
        a <= b,
    ensures
        pow2(a) <= pow2(b),
    decreases b,
{
    if a < b {
        lemma_pow2_mono(a, (b - 1) as nat);
    }
}

pub proof fn lemma_pow2_fits(k: nat)
    requires
        k <= 63,
    ensures
        pow2(k) <= 0x8000_0000_0000_0000,
{
    lemma_pow2_mono(k, 63);
    reveal_with_fuel(pow2, 64);
}

/// The completions that contain `x` and those that do not split the completions in two.
pub proof fn lemma_split_len(omega: usize, inc: Set<usize>, exc: Set<usize>, x: usize)
    requires
        is_universe(omega),
    ensures
        completions(omega, inc, exc).len() == completions(omega, inc, exc).filter(
            |d: Set<usize>| d.contains(x),
        ).len() + completions(omega, inc, exc).filter(|d: Set<usize>| !d.contains(x)).len(),
{
    let all = completions(omega, inc, exc);
    let with = all.filter(|d: Set<usize>| d.contains(x));
    let without = all.filter(|d: Set<usize>| !d.contains(x));
    lemma_completions_finite(omega, inc, exc);
    all.lemma_len_filter(|d: Set<usize>| d.contains(x));
    all.lemma_len_filter(|d: Set<usize>| !d.contains(x));
    assert(all =~= with + without);
    assert(with.disjoint(without));
    vstd::set_lib::lemma_set_disjoint_lens(with, without);
}

/// Excluding `x` and its complement keeps exactly the completions without `x`.
pub proof fn lemma_exclude_branch(omega: usize, inc: Set<usize>, exc: Set<usize>, x: usize)
    requires
        is_universe(omega),
        is_dynkin(omega, inc),
        x <= omega,
        !inc.contains(x),
    ensures
        completions(omega, inc, exc.insert(x).insert(omega ^ x)) == completions(
            omega,
            inc,
            exc,
        ).filter(|d: Set<usize>| !d.contains(x)),
{
    let e2 = exc.insert(x).insert(omega ^ x);
    lemma_half(omega, x);
    assert forall|d: Set<usize>|
        completions(omega, inc, e2).contains(d) implies completions(omega, inc, exc).contains(d)
        && !d.contains(x) by {
        assert forall|y: usize| #[trigger] d.contains(y) && exc.contains(y) implies inc.contains(
            y,
        ) by {
            assert(e2.contains(y));
        }
        if d.contains(x) {
            assert(e2.contains(x));
        }
    }
    assert forall|d: Set<usize>|
        completions(omega, inc, exc).contains(d) && !d.contains(x) implies completions(
            omega,
            inc,
            e2,
        ).contains(d) by {
        assert forall|y: usize| #[trigger] d.contains(y) && e2.contains(y) implies inc.contains(
            y,
        ) by {
            if y == omega ^ x {
                assert(d.contains(omega ^ y));
            }
        }
    }
    assert(completions(omega, inc, e2) =~= completions(omega, inc, exc).filter(
        |d: Set<usize>| !d.contains(x),
    ));
}

/// When the closure of `inc` and `x` avoids `exc`, the completions with `x` are those of the
/// closure.
pub proof fn lemma_include_branch(
    omega: usize,
    inc: Set<usize>,
    exc: Set<usize>,
    x: usize,
    c: Set<usize>,
)
    requires
        is_closure_of(omega, inc, x, c),
        avoids(c, inc, exc),
    ensures
        completions(omega, c, exc) == completions(omega, inc, exc).filter(
            |d: Set<usize>| d.contains(x),
        ),
{
    assert forall|d: Set<usize>|
        completions(omega, inc, exc).contains(d) && d.contains(x) implies completions(
            omega,
            c,
            exc,
        ).contains(d) by {
        assert(extends(omega, inc, x, d));
        assert(c.subset_of(d));
        assert forall|y: usize| #[trigger] d.contains(y) && exc.contains(y) implies c.contains(
            y,
        ) by {
            assert(inc.contains(y));
        }
    }
    assert forall|d: Set<usize>|
        completions(omega, c, exc).contains(d) implies completions(omega, inc, exc).contains(d)
        && d.contains(x) by {
        assert forall|y: usize| #[trigger] d.contains(y) && exc.contains(y) implies inc.contains(
            y,
        ) by {
            assert(c.contains(y));
        }
        assert(c.contains(x));
    }
    assert(completions(omega, c, exc) =~= completions(omega, inc, exc).filter(
        |d: Set<usize>| d.contains(x),
    ));
}

/// When every Dynkin system with `inc` and `x` meets `exc`, no completion holds `x`.
pub proof fn lemma_include_dead(omega: usize, inc: Set<usize>, exc: Set<usize>, x: usize)
    requires
        forall|d: Set<usize>| #[trigger] extends(omega, inc, x, d) ==> !avoids(d, inc, exc),
    ensures
        completions(omega, inc, exc).filter(|d: Set<usize>| d.contains(x)) == Set::<
            Set<usize>,
        >::empty(),
{
    assert forall|d: Set<usize>|
        !(completions(omega, inc, exc).contains(d) && d.contains(x)) by {
        if completions(omega, inc, exc).contains(d) && d.contains(x) {
            assert(extends(omega, inc, x, d));
        }
    }
    assert(completions(omega, inc, exc).filter(|d: Set<usize>| d.contains(x)) =~= Set::<
        Set<usize>,
    >::empty());
}

/// How many candidates `inner` may branch on from `lower_bound`: those in `[lower_bound, half)`,
/// leaving out the empty set, which every Dynkin system holds.
pub open spec fn search_width(omega: usize, lower_bound: usize) -> nat {
    if lower_bound >= half_of(omega) {
        0
    } else if lower_bound == 0 {
        (half_of(omega) - 1) as nat
    } else {
        (half_of(omega) - lower_bound) as nat
    }
}

/// The candidates in `[lower_bound, hi)` left undecided by `inc` and `exc`, with their
/// complements.
pub open spec fn swept(
    omega: usize,
    lower_bound: usize,
    hi: usize,
    inc: Set<usize>,
    exc: Set<usize>,
) -> Set<usize> {
    Set::new(
        |y: usize|
            exists|x: usize|
                lower_bound <= x < hi && !inc.contains(x) && !exc.contains(x) && (y == x || y
                    == omega ^ x),
    )
}

/// Counts the Dynkin systems on `omega` that contain `included` and whose other members avoid
/// `excluded`, by branching on the undecided subsets from `lower_bound` up to the midpoint.
/// Every subset below both `lower_bound` and the midpoint must already be decided. On return,
/// `excluded` also holds every candidate that was undecided, and its complement.
pub fn inner(
    omega: usize,
    lower_bound: usize,
    included: &Bitset,
    excluded: &mut Bitset,
    _queue: &mut Queue,
    depth: usize,
) -> (count: u64)
    requires
        is_universe(omega),
        is_dynkin(omega, members(*included)),
        forall|y: usize|
            y < lower_bound && y < half_of(omega) ==> members(*included).contains(y)
                || #[trigger] members(*old(excluded)).contains(y),
    ensures
        count == completions(omega, members(*included), members(*old(excluded))).len(),
        count <= pow2(search_width(omega, lower_bound)),
        members(*final(excluded)) == members(*old(excluded)).union(
            swept(
                omega,
                lower_bound,
                half_of(omega),
                members(*included),
                members(*old(excluded)),
            ),
        ),
    decreases (if lower_bound <= half_of(omega) {
        half_of(omega) - lower_bound
    } else {
        0
    }),
{
    let ghost inc = members(*included);
    let ghost exc0 = members(*excluded);
    proof {
        lemma_half(omega, 0);
        assert(members(*excluded) =~= exc0.union(swept(omega, lower_bound, lower_bound, inc, exc0)));
    }
    let mut count: u64 = 1;
    let limit: usize = (omega + 1) >> 1;
    let mut queue_local: Queue = Queue::new();
    let mut x: usize = lower_bound;
    while x < limit
        invariant
            is_universe(omega),
            is_dynkin(omega, inc),
            inc == members(*included),
            limit == half_of(omega),
            limit <= 64,
            lower_bound <= x,
            x <= limit || x == lower_bound,
            x == lower_bound ==> count == 1,
            members(*excluded) == exc0.union(swept(omega, lower_bound, x, inc, exc0)),
            forall|y: usize|
                y < x && y < limit ==> inc.contains(y) || #[trigger] members(*excluded).contains(y),
            count + completions(omega, inc, members(*excluded)).len() == completions(
                omega,
                inc,
                exc0,
            ).len() + 1,
            1 <= x <= limit ==> count + pow2((limit - x) as nat) <= pow2(
                search_width(omega, lower_bound),
            ) + 1,
        decreases limit - x,
    {
        let ghost exc = members(*excluded);
        proof {
            assert(inc.contains(0));
            if x >= 1 {
                assert(pow2((limit - x) as nat) == 2 * pow2((limit - x - 1) as nat));
            }
        }
        if bs_get(included, x) || bs_get(excluded, x) {
            proof {
                assert(x == 0 ==> count == 1);
                if !inc.contains(x) {
                    if !exc0.contains(x) {
                        assert(swept(omega, lower_bound, x, inc, exc0).contains(x));
                        let x2 = choose|x2: usize|
                            lower_bound <= x2 < x && !inc.contains(x2) && !exc0.contains(x2) && (x
                                == x2 || x == omega ^ x2);
                        lemma_half(omega, x2);
                    }
                }
                assert(swept(omega, lower_bound, (x + 1) as usize, inc, exc0) =~= swept(
                    omega,
                    lower_bound,
                    x,
                    inc,
                    exc0,
                ));
            }
            x = x + 1;
            continue;
        }
        proof {
            lemma_half(omega, x);
            lemma_split_len(omega, inc, exc, x);
            assert(x >= 1);
        }
        // Inclusion branch
        let mut closure: Bitset = [0u64; BITSET_WORDS];
        queue_local.clear();
        if extend_closure(omega, included, x, excluded, &mut closure, &mut queue_local) {
            let mut new_excluded: Bitset = *excluded;
            proof {
                assert forall|y: usize|
                    y < x + 1 && y < half_of(omega) implies members(closure).contains(y)
                        || #[trigger] members(new_excluded).contains(y) by {
                    if y < x && inc.contains(y) {
                        assert(inc.subset_of(members(closure)));
                    }
                }
            }
            let sub: u64 = inner(
                omega,
                x + 1,
                &closure,
                &mut new_excluded,
                &mut queue_local,
                depth,
            );
            proof {
                lemma_include_branch(omega, inc, exc, x, members(closure));
                lemma_pow2_fits(search_width(omega, lower_bound));
                assert(sub <= pow2((limit - x - 1) as nat));
                assert(count + sub <= pow2(search_width(omega, lower_bound)) + 1);
            }
            count = count + sub;
        } else {
            proof {
                lemma_include_dead(omega, inc, exc, x);
            }
        }
        // Exclusion branch
        bs_set(excluded, x);
        bs_set(excluded, omega ^ x);
        proof {
            lemma_exclude_branch(omega, inc, exc, x);
            assert(!exc0.contains(x));
            assert(swept(omega, lower_bound, (x + 1) as usize, inc, exc0) =~= swept(
                omega,
                lower_bound,
                x,
                inc,
                exc0,
            ).insert(x).insert(omega ^ x));
            assert(members(*excluded) =~= exc0.union(
                swept(omega, lower_bound, (x + 1) as usize, inc, exc0),
            ));
        }
        x = x + 1;
    }
    proof {
        lemma_completions_decided(omega, inc, members(*excluded));
        assert(set![inc].len() == 1);
        assert(swept(omega, lower_bound, x, inc, exc0) =~= swept(
            omega,
            lower_bound,
            limit,
            inc,
            exc0,
        ));
        if x == lower_bound {
            lemma_pow2_mono(0, search_width(omega, lower_bound));
        }
    }
    count
}

} // verus!
