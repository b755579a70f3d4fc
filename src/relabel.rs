use vstd::prelude::*;
use vstd::relations::injective_on;
use crate::closure::{is_universe, is_dynkin, avoids, lemma_bits};
use crate::search::{completions, lemma_completions_finite};

verus! {

/// `f` relabels the subsets of the ground set `omega`, with inverse `g`: it keeps the empty set,
/// complements, disjointness and unions of disjoint subsets. Every permutation of the ground
/// elements induces one, applied bit by bit.
pub open spec fn is_relabelling(
    omega: usize,
    f: spec_fn(usize) -> usize,
    g: spec_fn(usize) -> usize,
) -> bool {
    &&& forall|a: usize| a <= omega ==> #[trigger] f(a) <= omega && g(f(a)) == a
    &&& forall|a: usize| a <= omega ==> #[trigger] g(a) <= omega && f(g(a)) == a
    &&& f(0) == 0
    &&& forall|a: usize| a <= omega ==> #[trigger] f(omega ^ a) == omega ^ f(a)
    &&& forall|a: usize, b: usize|
        a <= omega && b <= omega ==> ((#[trigger] f(a) & #[trigger] f(b) == 0) == (a & b == 0))
    &&& forall|a: usize, b: usize|
        a <= omega && b <= omega && a & b == 0 ==> #[trigger] f(a | b) == f(a) | f(b)
}

/// The family `s` with every subset renamed: `y` is a member when the subset it came from,
/// `g(y)`, was.
pub open spec fn relabel(omega: usize, s: Set<usize>, g: spec_fn(usize) -> usize) -> Set<usize> {
    Set::new(|y: usize| y <= omega && s.contains(g(y)))
}

proof fn lemma_inverse_relabelling(
    omega: usize,
    f: spec_fn(usize) -> usize,
    g: spec_fn(usize) -> usize,
)
    requires
        is_universe(omega),
        is_relabelling(omega, f, g),
    ensures
        is_relabelling(omega, g, f),
{
    assert(g(f(0)) == 0);
    assert forall|a: usize| a <= omega implies #[trigger] g(omega ^ a) == omega ^ g(a) by {
        lemma_bits(omega, g(a), g(a));
        assert(f(omega ^ g(a)) == omega ^ f(g(a)));
        assert(g(f(omega ^ g(a))) == omega ^ g(a));
    }
    assert forall|a: usize, b: usize| a <= omega && b <= omega implies ((#[trigger] g(a)
        & #[trigger] g(b) == 0) == (a & b == 0)) by {
        assert((f(g(a)) & f(g(b)) == 0) == (g(a) & g(b) == 0));
    }
    assert forall|a: usize, b: usize|
        a <= omega && b <= omega && a & b == 0 implies #[trigger] g(a | b) == g(a) | g(b) by {
        assert((f(g(a)) & f(g(b)) == 0) == (g(a) & g(b) == 0));
        lemma_bits(omega, g(a), g(b));
        assert(f(g(a) | g(b)) == f(g(a)) | f(g(b)));
        assert(g(f(g(a) | g(b))) == g(a) | g(b));
    }
}

proof fn lemma_relabel_dynkin(
    omega: usize,
    h: spec_fn(usize) -> usize,
    k: spec_fn(usize) -> usize,
    d: Set<usize>,
)
    requires
        is_universe(omega),
        is_relabelling(omega, h, k),
        is_dynkin(omega, d),
    ensures
        is_dynkin(omega, relabel(omega, d, h)),
{
    let r = relabel(omega, d, h);
    assert(r.contains(0));
    assert forall|y: usize| r.contains(y) implies #[trigger] r.contains(omega ^ y) by {
        lemma_bits(omega, y, y);
        assert(d.contains(omega ^ h(y)));
    }
    assert forall|a: usize, b: usize|
        r.contains(a) && r.contains(b) && a & b == 0 implies #[trigger] r.contains(a | b) by {
        lemma_bits(omega, a, b);
        assert(h(a) & h(b) == 0);
        assert(d.contains(h(a) | h(b)));
    }
}

/// Renaming by `h` sends the completions of `inc` and `exc` one to one into those of the
/// renamed families.
proof fn lemma_relabel_count_le(
    omega: usize,
    h: spec_fn(usize) -> usize,
    k: spec_fn(usize) -> usize,
    inc: Set<usize>,
    exc: Set<usize>,
)
    requires
        is_universe(omega),
        is_relabelling(omega, h, k),
    ensures
        completions(omega, inc, exc).len() <= completions(
            omega,
            relabel(omega, inc, h),
            relabel(omega, exc, h),
        ).len(),
{
    let src = completions(omega, inc, exc);
    let dst = completions(omega, relabel(omega, inc, h), relabel(omega, exc, h));
    let m = |d: Set<usize>| relabel(omega, d, h);
    lemma_completions_finite(omega, inc, exc);
    lemma_completions_finite(omega, relabel(omega, inc, h), relabel(omega, exc, h));
    assert forall|d1: Set<usize>, d2: Set<usize>|
        src.contains(d1) && src.contains(d2) && #[trigger] m(d1) == #[trigger] m(d2) implies d1
        == d2 by {
        assert forall|a: usize| d1.contains(a) <==> d2.contains(a) by {
            if d1.contains(a) {
                assert(relabel(omega, d1, h).contains(k(a)));
            }
            if d2.contains(a) {
                assert(relabel(omega, d2, h).contains(k(a)));
            }
        }
        assert(d1 =~= d2);
    }
    assert(injective_on(m, src));
    vstd::set_lib::lemma_map_size(src, src.map(m), m);
    assert forall|r: Set<usize>| src.map(m).contains(r) implies dst.contains(r) by {
        let d = choose|d: Set<usize>| src.contains(d) && m(d) == r;
        lemma_relabel_dynkin(omega, h, k, d);
        assert forall|y: usize| #[trigger] r.contains(y) && relabel(omega, exc, h).contains(y)
            implies relabel(omega, inc, h).contains(y) by {
            assert(d.contains(h(y)) && exc.contains(h(y)));
        }
        assert(relabel(omega, inc, h).subset_of(r));
        assert(avoids(r, relabel(omega, inc, h), relabel(omega, exc, h)));
    }
    vstd::set_lib::lemma_len_subset(src.map(m), dst);
}

/// Relabelling the ground elements keeps the number of Dynkin systems that contain `inc` and
/// avoid `exc` outside it: renaming the subsets by `f` (with inverse `g`) gives as many
/// completions of the renamed families as of the originals. So the counts of `inner` and of
/// the driver do not depend on how the ground elements are numbered.
pub proof fn lemma_relabelling_keeps_count(
    omega: usize,
    f: spec_fn(usize) -> usize,
    g: spec_fn(usize) -> usize,
    inc: Set<usize>,
    exc: Set<usize>,
)
    requires
        is_universe(omega),
        is_relabelling(omega, f, g),
        is_dynkin(omega, inc),
    ensures
        is_dynkin(omega, relabel(omega, inc, g)),
        completions(omega, relabel(omega, inc, g), relabel(omega, exc, g)).len() == completions(
            omega,
            inc,
            exc,
        ).len(),
{
    lemma_inverse_relabelling(omega, f, g);
    lemma_relabel_dynkin(omega, g, f, inc);
    lemma_relabel_count_le(omega, g, f, inc, exc);
    let inc2 = relabel(omega, inc, g);
    let exc2 = relabel(omega, exc, g);
    lemma_relabel_count_le(omega, f, g, inc2, exc2);
    let exc_in = Set::new(|y: usize| y <= omega && exc.contains(y));
    assert(relabel(omega, inc2, f) =~= inc);
    assert(relabel(omega, exc2, f) =~= exc_in);
    assert forall|d: Set<usize>| #[trigger] completions(omega, inc, exc).contains(d)
        <==> completions(omega, inc, exc_in).contains(d) by {
        if completions(omega, inc, exc_in).contains(d) {
            assert forall|y: usize| #[trigger] d.contains(y) && exc.contains(y) implies inc.contains(
                y,
            ) by {
                assert(exc_in.contains(y));
            }
        }
    }
    assert(completions(omega, inc, exc) =~= completions(omega, inc, exc_in));
}

} // verus!
