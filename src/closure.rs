use vstd::prelude::*;
use crate::bitset::{Bitset, MAX_SUBSETS, members, bs_copy, bs_set, bs_get};
use crate::queue::Queue;

verus! {

/// `omega` is the bit pattern 2^n - 1 of a ground set of n elements, with n at most `MAX_N`.
pub open spec fn is_universe(omega: usize) -> bool {
    omega < MAX_SUBSETS && omega & ((omega + 1) as usize) == 0
}

/// `d` is a Dynkin system on the ground set `omega`: it holds the empty set, only subsets of
/// the ground set, and is closed under complement and under union of disjoint members.
pub open spec fn is_dynkin(omega: usize, d: Set<usize>) -> bool {
    &&& d.contains(0)
    &&& forall|y: usize| #[trigger] d.contains(y) ==> y <= omega
    &&& forall|y: usize| d.contains(y) ==> #[trigger] d.contains(omega ^ y)
    &&& forall|a: usize, b: usize|
        d.contains(a) && d.contains(b) && a & b == 0 ==> #[trigger] d.contains(a | b)
}

/// `d` is a Dynkin system that contains `inc` and `x`.
pub open spec fn extends(omega: usize, inc: Set<usize>, x: usize, d: Set<usize>) -> bool {
    is_dynkin(omega, d) && inc.subset_of(d) && d.contains(x)
}

/// Every member of `d` outside `inc` stays clear of `exc`.
pub open spec fn avoids(d: Set<usize>, inc: Set<usize>, exc: Set<usize>) -> bool {
    forall|y: usize| #[trigger] d.contains(y) && exc.contains(y) ==> inc.contains(y)
}

/// `c` is the least Dynkin system that contains `inc` and `x`.
pub open spec fn is_closure_of(omega: usize, inc: Set<usize>, x: usize, c: Set<usize>) -> bool {
    &&& extends(omega, inc, x, c)
    &&& forall|d: Set<usize>| #[trigger] extends(omega, inc, x, d) ==> c.subset_of(d)
}

pub proof fn lemma_bits(omega: usize, a: usize, b: usize)
    requires
        is_universe(omega),
        a <= omega,
        b <= omega,
    ensures
        a | b <= omega,
        omega ^ a <= omega,
        omega ^ (omega ^ a) == a,
        a | b >= a,
        a | b >= b,
        a & b == b & a,
        a | b == b | a,
{
    assert(a | b <= omega) by (bit_vector)
        requires
            omega < 128,
            omega & ((omega + 1) as usize) == 0,
            a <= omega,
            b <= omega,
    ;
    assert(omega ^ a <= omega) by (bit_vector)
        requires
            omega < 128,
            omega & ((omega + 1) as usize) == 0,
            a <= omega,
    ;
    assert(omega ^ (omega ^ a) == a) by (bit_vector);
    assert(a | b >= a && a | b >= b) by (bit_vector);
    assert(a & b == b & a && a | b == b | a) by (bit_vector);
}

pub proof fn lemma_usize_range(n: usize)
    ensures
        Set::new(|i: usize| i < n).finite(),
        Set::new(|i: usize| i < n).len() == n,
    decreases n,
{
    if n == 0 {
        assert(Set::new(|i: usize| i < n) =~= Set::<usize>::empty());
    } else {
        let m: usize = (n - 1) as usize;
        lemma_usize_range(m);
        assert(Set::new(|i: usize| i < n) =~= Set::new(|i: usize| i < m).insert(m));
    }
}

pub proof fn lemma_bounded_len(s: Set<usize>)
    requires
        forall|y: usize| #[trigger] s.contains(y) ==> y < MAX_SUBSETS,
    ensures
        s.finite(),
        s.len() <= MAX_SUBSETS,
{
    let full = Set::new(|i: usize| i < MAX_SUBSETS);
    lemma_usize_range(MAX_SUBSETS);
    assert(s.subset_of(full));
    vstd::set_lib::lemma_len_subset(s, full);
}

/// Extends `included` by `extension` and closes the result under the Dynkin axioms, writing it
/// into `closure`. Returns false exactly when every Dynkin system that contains `included` and
/// `extension` also holds a member of `excluded` outside `included`; on success `closure` is the
/// least such system, and its new members avoid `excluded`.
pub fn extend_closure(
    omega: usize,
    included: &Bitset,
    extension: usize,
    excluded: &Bitset,
    closure: &mut Bitset,
    queue: &mut Queue,
) -> (r: bool)
    requires
        is_universe(omega),
        is_dynkin(omega, members(*included)),
        extension <= omega,
        !members(*included).contains(extension),
        !members(*excluded).contains(extension),
    ensures
        r ==> is_closure_of(omega, members(*included), extension, members(*final(closure))),
        r ==> avoids(members(*final(closure)), members(*included), members(*excluded)),
        !r ==> forall|d: Set<usize>|
            #[trigger] extends(omega, members(*included), extension, d) ==> !avoids(
                d,
                members(*included),
                members(*excluded),
            ),
{
    let ghost inc = members(*included);
    let ghost exc = members(*excluded);
    bs_copy(closure, included);
    bs_set(closure, extension);
    queue.clear();
    queue.push(extension);
    let ghost mut queued: Set<usize> = set![extension];
    assert(members(*closure) =~= inc.union(queued));
    assert(queue.data[0] == extension);
    let mut queue_index: usize = 0;
    while queue_index < queue.len
        invariant
            is_universe(omega),
            is_dynkin(omega, inc),
            inc == members(*included),
            exc == members(*excluded),
            extension <= omega,
            !inc.contains(extension),
            !exc.contains(extension),
            queue_index <= queue.len,
            queued.finite(),
            queued.len() == queue.len as nat,
            members(*closure) == inc.union(queued),
            inc.disjoint(queued),
            members(*closure).contains(extension),
            forall|k: int| 0 <= k < queue.len ==> #[trigger] queued.contains(queue.data[k]),
            forall|y: usize|
                #[trigger] queued.contains(y) ==> exists|k: int|
                    0 <= k < queue.len && queue.data[k] == y,
            forall|y: usize| #[trigger] members(*closure).contains(y) ==> y <= omega,
            forall|y: usize|
                members(*closure).contains(y) && exc.contains(y) ==> #[trigger] inc.contains(y),
            forall|d: Set<usize>| #[trigger]
                extends(omega, inc, extension, d) ==> members(*closure).subset_of(d),
            forall|k: int|
                0 <= k < queue_index ==> members(*closure).contains(omega ^ #[trigger] queue.data[k]),
            forall|i: int, j: int|
                0 <= i < queue_index && 0 <= j < queue_index && queue.data[i] & queue.data[j] == 0
                    ==> members(*closure).contains(#[trigger] queue.data[i] | #[trigger] queue.data[j]),
            forall|i: int, b: usize|
                0 <= i < queue_index && inc.contains(b) && queue.data[i] & b == 0
                    ==> members(*closure).contains(#[trigger] (queue.data[i] | b)),
        decreases MAX_SUBSETS - queue_index,
    {
        proof {
            lemma_bounded_len(queued);
        }
        let x: usize = queue.data[queue_index];
        assert(queued.contains(x));
        assert(members(*closure).contains(x));
        let complement: usize = omega ^ x;
        proof {
            lemma_bits(omega, x, x);
        }
        if !bs_get(closure, complement) {
            if bs_get(excluded, complement) {
                assert forall|d: Set<usize>| #[trigger]
                    extends(omega, inc, extension, d) implies !avoids(d, inc, exc) by {
                    assert(d.contains(x));
                    assert(d.contains(omega ^ x));
                    assert(d.contains(complement) && exc.contains(complement) && !inc.contains(complement));
                }
                return false;
            }
            proof {
                lemma_bounded_len(queued.insert(complement));
            }
            bs_set(closure, complement);
            let ghost old_queue = *queue;
            queue.push(complement);
            proof {
                queued = queued.insert(complement);
                assert(queue.data[queue.len - 1] == complement);
                assert forall|v: usize| #[trigger] queued.contains(v) implies exists|k: int|
                    0 <= k < queue.len && queue.data[k] == v by {
                    if v == complement {
                        assert(queue.data[queue.len - 1] == v);
                    } else {
                        let k = choose|k: int| 0 <= k < old_queue.len && old_queue.data[k] == v;
                        assert(queue.data[k] == v);
                    }
                }
                assert forall|d: Set<usize>| #[trigger]
                    extends(omega, inc, extension, d) implies members(*closure).subset_of(d) by {
                    assert(d.contains(x));
                    assert(d.contains(omega ^ x));
                }
            }
        }
        assert(members(*closure).contains(omega ^ x));
        let mut y: usize = 0;
        while y <= omega
            invariant
                is_universe(omega),
                is_dynkin(omega, inc),
                inc == members(*included),
                exc == members(*excluded),
                extension <= omega,
                !inc.contains(extension),
                !exc.contains(extension),
                queue_index < queue.len,
                queue.data[queue_index as int] == x,
                x <= omega,
                y <= omega + 1,
                queued.finite(),
                queued.len() == queue.len as nat,
                members(*closure) == inc.union(queued),
                inc.disjoint(queued),
                members(*closure).contains(extension),
                members(*closure).contains(x),
                members(*closure).contains(omega ^ x),
                forall|k: int| 0 <= k < queue.len ==> #[trigger] queued.contains(queue.data[k]),
                forall|y: usize|
                    #[trigger] queued.contains(y) ==> exists|k: int|
                        0 <= k < queue.len && queue.data[k] == y,
                forall|y: usize| #[trigger] members(*closure).contains(y) ==> y <= omega,
                forall|y: usize|
                    members(*closure).contains(y) && exc.contains(y) ==> #[trigger] inc.contains(y),
                forall|d: Set<usize>| #[trigger]
                    extends(omega, inc, extension, d) ==> members(*closure).subset_of(d),
                forall|k: int|
                    0 <= k < queue_index ==> members(*closure).contains(omega ^ #[trigger] queue.data[k]),
                forall|i: int, j: int|
                    0 <= i < queue_index && 0 <= j < queue_index && queue.data[i] & queue.data[j] == 0
                        ==> members(*closure).contains(#[trigger] queue.data[i] | #[trigger] queue.data[j]),
                forall|i: int, b: usize|
                    0 <= i < queue_index && inc.contains(b) && queue.data[i] & b == 0
                        ==> members(*closure).contains(#[trigger] (queue.data[i] | b)),
                forall|v: usize|
                    v < y && members(*closure).contains(v) && x & v == 0
                        ==> members(*closure).contains(#[trigger] (x | v)),
            decreases omega + 1 - y,
        {
            if bs_get(closure, y) && (x & y) == 0 {
                let z: usize = x | y;
                proof {
                    lemma_bits(omega, x, y);
                }
                if !bs_get(closure, z) {
                    if bs_get(excluded, z) {
                        assert forall|d: Set<usize>| #[trigger]
                            extends(omega, inc, extension, d) implies !avoids(d, inc, exc) by {
                            assert(d.contains(x) && d.contains(y));
                            assert(d.contains(x | y));
                            assert(d.contains(z) && exc.contains(z) && !inc.contains(z));
                        }
                        return false;
                    }
                    proof {
                        lemma_bounded_len(queued.insert(z));
                    }
                    let ghost before = members(*closure);
                    bs_set(closure, z);
                    let ghost old_queue = *queue;
                    queue.push(z);
                    proof {
                        queued = queued.insert(z);
                        assert(queue.data[queue.len - 1] == z);
                        assert forall|v: usize| #[trigger] queued.contains(v) implies exists|k: int|
                            0 <= k < queue.len && queue.data[k] == v by {
                            if v == z {
                                assert(queue.data[queue.len - 1] == v);
                            } else {
                                let k = choose|k: int| 0 <= k < old_queue.len && old_queue.data[k] == v;
                                assert(queue.data[k] == v);
                            }
                        }
                        assert forall|d: Set<usize>| #[trigger]
                            extends(omega, inc, extension, d) implies members(*closure).subset_of(d) by {
                            assert(d.contains(x) && d.contains(y));
                            assert(d.contains(x | y));
                        }
                        assert forall|v: usize|
                            v <= y && members(*closure).contains(v) && x & v == 0
                                implies members(*closure).contains(#[trigger] (x | v)) by {
                            if v < y {
                                assert(before.contains(v));
                            }
                        }
                    }
                }
            }
            y = y + 1;
        }
        proof {
            assert forall|i: int, j: int|
                0 <= i < queue_index + 1 && 0 <= j < queue_index + 1 && queue.data[i] & queue.data[j] == 0
                    implies members(*closure).contains(#[trigger] queue.data[i] | #[trigger] queue.data[j]) by {
                let a = queue.data[i];
                let b = queue.data[j];
                assert(queued.contains(a) && queued.contains(b));
                assert(members(*closure).contains(a) && members(*closure).contains(b));
                lemma_bits(omega, a, b);
                if i == queue_index {
                    assert(members(*closure).contains(x | b));
                } else if j == queue_index {
                    assert(members(*closure).contains(x | a));
                }
            }
            assert forall|i: int, b: usize|
                0 <= i < queue_index + 1 && inc.contains(b) && queue.data[i] & b == 0
                    implies members(*closure).contains(#[trigger] (queue.data[i] | b)) by {
                if i == queue_index {
                    assert(members(*closure).contains(b));
                }
            }
        }
        queue_index = queue_index + 1;
    }
    proof {
        let c = members(*closure);
        assert forall|v: usize| c.contains(v) implies #[trigger] c.contains(omega ^ v) by {
            if inc.contains(v) {
                assert(inc.contains(omega ^ v));
            } else {
                assert(queued.contains(v));
                let k = choose|k: int| 0 <= k < queue.len && queue.data[k] == v;
                assert(c.contains(omega ^ queue.data[k]));
            }
        }
        assert forall|a: usize, b: usize|
            c.contains(a) && c.contains(b) && a & b == 0 implies #[trigger] c.contains(a | b) by {
            lemma_bits(omega, a, b);
            if inc.contains(a) && inc.contains(b) {
                assert(inc.contains(a | b));
            } else if inc.contains(a) {
                assert(queued.contains(b));
                let j = choose|j: int| 0 <= j < queue.len && queue.data[j] == b;
                assert(c.contains(queue.data[j] | a));
            } else if inc.contains(b) {
                assert(queued.contains(a));
                let i = choose|i: int| 0 <= i < queue.len && queue.data[i] == a;
                assert(c.contains(queue.data[i] | b));
            } else {
                assert(queued.contains(a) && queued.contains(b));
                let i = choose|i: int| 0 <= i < queue.len && queue.data[i] == a;
                let j = choose|j: int| 0 <= j < queue.len && queue.data[j] == b;
                assert(c.contains(queue.data[i] | queue.data[j]));
            }
        }
        assert(c.contains(0));
        assert(is_dynkin(omega, c));
        assert(extends(omega, inc, extension, c));
    }
    true
}

} // verus!
