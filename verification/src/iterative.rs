//! The iterative network engine: the same kind of fixed, length-determined
//! compare-and-swap schedule as the recursive engine, generated by closed-form
//! bit arithmetic over loop counters instead of recursion (merge-exchange in
//! the manner of Knuth's Algorithm M).
//!
//! The schedule is given by the spec functions `iter_row` / `iter_pass` /
//! `iter_net`, functions of the length alone; the executable loops realize it
//! exactly.

use vstd::prelude::*;

use crate::ct::{cmp_callable, cmp_decides, compare_and_swap};
use crate::model::{
    asc_oriented, lemma_apply_net_sorted_no_op, lemma_asc_oriented_concat, sorted_asc,
    apply_net, is_pow2, lemma_apply_net_concat, lemma_pow2_double_le, lemma_prior_pow2_bounds,
    lemma_prior_pow2_is_pow2, prior_pow2, prior_power_of_two,
};

verus! {

/// The mask test of a pass: position `i` takes part when `(i & p) == r`.
pub open spec fn sel(i: int, p: int, r: int) -> bool {
    ((i as usize) & (p as usize)) == (r as usize)
}

/// The row of one counter state: for each position `i` from `i0` upward with
/// `i + d` still in range, pair `i` with `i + d` when the mask test passes.
pub open spec fn iter_row(n: int, p: int, r: int, d: int, i0: int) -> Seq<(int, int)>
    decreases n - i0,
{
    if 0 <= i0 && 1 <= d && i0 + d < n {
        (if sel(i0, p, r) {
            seq![(i0 + d, i0)]
        } else {
            Seq::empty()
        }) + iter_row(n, p, r, d, i0 + 1)
    } else {
        Seq::empty()
    }
}

/// One pass of the engine for mask `p`: rows for the counter states `(q, r, d)`,
/// starting from `(q, r, d)` and continuing with `(q / 2, p, q - p)` while
/// `q` has not come down to `p`.
pub open spec fn iter_pass(n: int, p: int, q: int, r: int, d: int) -> Seq<(int, int)>
    decreases q, 1int,
{
    iter_row(n, p, r, d, 0) + pass_tail(n, p, q)
}

/// What remains of a pass once the row of counter state `q` has run.
pub open spec fn pass_tail(n: int, p: int, q: int) -> Seq<(int, int)>
    decreases q, 0int,
{
    if q > p && p >= 1 {
        iter_pass(n, p, q / 2, p, q - p)
    } else {
        Seq::empty()
    }
}

/// The schedule of the whole engine from mask `p` downward, `q` starting at
/// `k0` in every pass.
pub open spec fn iter_net_from(n: int, k0: int, p: int) -> Seq<(int, int)>
    decreases p,
{
    if p < 1 {
        Seq::empty()
    } else {
        iter_pass(n, p, k0, 0, p) + iter_net_from(n, k0, p / 2)
    }
}

/// The full schedule of the iterative engine for length `n`: a function of the
/// length alone.
pub open spec fn iter_net(n: int) -> Seq<(int, int)> {
    iter_net_from(n, prior_pow2(n), prior_pow2(n))
}

/// Every entry of a row compares a position with a strictly earlier one.
proof fn lemma_iter_row_oriented(n: int, p: int, r: int, d: int, i0: int)
    ensures
        asc_oriented(iter_row(n, p, r, d, i0), n),
    decreases n - i0,
{
    if 0 <= i0 && 1 <= d && i0 + d < n {
        let head = if sel(i0, p, r) {
            seq![(i0 + d, i0)]
        } else {
            Seq::<(int, int)>::empty()
        };
        assert(asc_oriented(head, n));
        lemma_iter_row_oriented(n, p, r, d, i0 + 1);
        lemma_asc_oriented_concat(head, iter_row(n, p, r, d, i0 + 1), n);
    }
}

/// Every entry of a pass compares a position with a strictly earlier one.
proof fn lemma_iter_pass_oriented(n: int, p: int, q: int, r: int, d: int)
    ensures
        asc_oriented(iter_pass(n, p, q, r, d), n),
    decreases q, 1int,
{
    lemma_iter_row_oriented(n, p, r, d, 0);
    lemma_pass_tail_oriented(n, p, q);
    lemma_asc_oriented_concat(iter_row(n, p, r, d, 0), pass_tail(n, p, q), n);
}

/// Every entry of the rest of a pass compares a position with a strictly
/// earlier one.
proof fn lemma_pass_tail_oriented(n: int, p: int, q: int)
    ensures
        asc_oriented(pass_tail(n, p, q), n),
    decreases q, 0int,
{
    if q > p && p >= 1 {
        lemma_iter_pass_oriented(n, p, q / 2, p, q - p);
    }
}

/// Every entry of the iterative schedule compares a position with a strictly
/// earlier one, and stays within the sequence.
proof fn lemma_iter_net_from_oriented(n: int, k0: int, p: int)
    ensures
        asc_oriented(iter_net_from(n, k0, p), n),
    decreases p,
{
    if p >= 1 {
        lemma_iter_pass_oriented(n, p, k0, 0, p);
        lemma_iter_net_from_oriented(n, k0, p / 2);
        lemma_asc_oriented_concat(iter_pass(n, p, k0, 0, p), iter_net_from(n, k0, p / 2), n);
    }
}

/// Sorting an already-sorted sequence through the iterative engine is a no-op:
/// every compare-and-swap of its schedule is oriented upward, so on a sequence
/// sorted under `lt` every swap predicate evaluates false and no value moves.
pub proof fn lemma_iter_net_sorted_no_op<T>(s: Seq<T>, lt: spec_fn(T, T) -> bool)
    requires
        sorted_asc(s, lt),
    ensures
        apply_net(iter_net(s.len() as int), s, lt) == s,
{
    lemma_iter_net_from_oriented(
        s.len() as int,
        prior_pow2(s.len() as int),
        prior_pow2(s.len() as int),
    );
    lemma_apply_net_sorted_no_op(iter_net(s.len() as int), s, lt);
}

/// One row of the engine: compare-and-swap `i` with `i + d`, ascending, for
/// every position that passes the mask test.
fn iter_row_pass<T, F>(v: &mut Vec<T>, n: usize, p: usize, r: usize, d: usize, cmp: &F) where
    T: subtle::ConditionallySelectable,
    F: Fn(&T, &T) -> subtle::Choice,

    requires
        n == old(v).len(),
        1 <= d < n,
        cmp_callable::<T, F>(*cmp),
    ensures
        final(v)@.len() == old(v)@.len(),
        final(v)@.to_multiset() == old(v)@.to_multiset(),
        forall|lt: spec_fn(T, T) -> bool| #[trigger]
            cmp_decides::<T, F>(*cmp, lt) ==> final(v)@ == apply_net(
                iter_row(n as int, p as int, r as int, d as int, 0),
                old(v)@,
                lt,
            ),
{
    let ghost v0 = v@;
    let mut i: usize = 0;
    while i < n - d
        invariant
            n == v@.len(),
            v@.len() == v0.len(),
            1 <= d < n,
            i <= n - d,
            cmp_callable::<T, F>(*cmp),
            v@.to_multiset() == v0.to_multiset(),
            forall|lt: spec_fn(T, T) -> bool| #[trigger]
                cmp_decides::<T, F>(*cmp, lt) ==> apply_net(
                    iter_row(n as int, p as int, r as int, d as int, i as int),
                    v@,
                    lt,
                ) == apply_net(iter_row(n as int, p as int, r as int, d as int, 0), v0, lt),
        decreases n - d - i,
    {
        let ghost vpre = v@;
        let ghost rowi = iter_row(n as int, p as int, r as int, d as int, i as int);
        let ghost rownext = iter_row(n as int, p as int, r as int, d as int, i as int + 1);
        if i & p == r {
            compare_and_swap(v, i + d, i, cmp);
            proof {
                assert(sel(i as int, p as int, r as int));
                assert(rowi == seq![((i + d) as int, i as int)] + rownext);
                assert(rowi[0] == ((i + d) as int, i as int));
                assert(rowi.drop_first() =~= rownext);
                assert forall|lt: spec_fn(T, T) -> bool| #[trigger]
                    cmp_decides::<T, F>(*cmp, lt) implies apply_net(rownext, v@, lt)
                    == apply_net(
                    iter_row(n as int, p as int, r as int, d as int, 0),
                    v0,
                    lt,
                ) by {
                    assert(apply_net(rowi, vpre, lt) == apply_net(
                        rowi.drop_first(),
                        crate::model::apply_one(vpre, (i + d) as int, i as int, lt),
                        lt,
                    ));
                };
            }
        } else {
            proof {
                assert(!sel(i as int, p as int, r as int));
                assert(rowi =~= rownext);
            }
        }
        i += 1;
    }
    proof {
        assert(iter_row(n as int, p as int, r as int, d as int, i as int) =~= Seq::<(
            int,
            int,
        )>::empty());
    }
}

/// The iterative engine over the whole of `v`: masks `p` halving from the top
/// power of two down to 1, counters `(q, r, d)` driving the rows of each pass.
pub(crate) fn sort_iter_whole<T, F>(v: &mut Vec<T>, cmp: &F) where
    T: subtle::ConditionallySelectable,
    F: Fn(&T, &T) -> subtle::Choice,

    requires
        cmp_callable::<T, F>(*cmp),
    ensures
        final(v)@.len() == old(v)@.len(),
        final(v)@.to_multiset() == old(v)@.to_multiset(),
        forall|lt: spec_fn(T, T) -> bool| #[trigger]
            cmp_decides::<T, F>(*cmp, lt) ==> final(v)@ == apply_net(
                iter_net(old(v)@.len() as int),
                old(v)@,
                lt,
            ),
{
    let n = v.len();
    let k0 = prior_power_of_two(n);
    proof {
        if n >= 2 {
            lemma_prior_pow2_bounds(n as int);
            lemma_prior_pow2_is_pow2(n as int);
        }
    }
    let ghost v0 = v@;
    let mut p = k0;
    while p >= 1
        invariant
            n == v@.len(),
            v@.len() == v0.len(),
            cmp_callable::<T, F>(*cmp),
            k0 as int == prior_pow2(n as int),
            p <= k0,
            p == 0 || is_pow2(p as int),
            k0 == 0 || (is_pow2(k0 as int) && k0 < n),
            v@.to_multiset() == v0.to_multiset(),
            forall|lt: spec_fn(T, T) -> bool| #[trigger]
                cmp_decides::<T, F>(*cmp, lt) ==> apply_net(
                    iter_net_from(n as int, k0 as int, p as int),
                    v@,
                    lt,
                ) == apply_net(iter_net_from(n as int, k0 as int, k0 as int), v0, lt),
        decreases p,
    {
        let ghost vp0 = v@;
        let mut q = k0;
        let mut r: usize = 0;
        let mut d = p;
        iter_row_pass(v, n, p, r, d, cmp);
        proof {
            assert forall|lt: spec_fn(T, T) -> bool| #[trigger]
                cmp_decides::<T, F>(*cmp, lt) implies apply_net(
                pass_tail(n as int, p as int, q as int),
                v@,
                lt,
            ) == apply_net(
                iter_pass(n as int, p as int, k0 as int, 0, p as int),
                vp0,
                lt,
            ) by {
                lemma_apply_net_concat(
                    iter_row(n as int, p as int, 0, p as int, 0),
                    pass_tail(n as int, p as int, k0 as int),
                    vp0,
                    lt,
                );
            };
        }
        while q != p
            invariant
                n == v@.len(),
                v@.len() == v0.len(),
                cmp_callable::<T, F>(*cmp),
                1 <= p,
                p <= q <= k0,
                k0 < n,
                is_pow2(p as int),
                is_pow2(q as int),
                v@.to_multiset() == v0.to_multiset(),
                forall|lt: spec_fn(T, T) -> bool| #[trigger]
                    cmp_decides::<T, F>(*cmp, lt) ==> apply_net(
                        pass_tail(n as int, p as int, q as int),
                        v@,
                        lt,
                    ) == apply_net(
                        iter_pass(n as int, p as int, k0 as int, 0, p as int),
                        vp0,
                        lt,
                    ),
            decreases q,
        {
            let ghost qold = q as int;
            proof {
                lemma_pow2_double_le(p as int, q as int);
            }
            d = q - p;
            q = q / 2;
            r = p;
            let ghost vrow0 = v@;
            iter_row_pass(v, n, p, r, d, cmp);
            proof {
                assert forall|lt: spec_fn(T, T) -> bool| #[trigger]
                    cmp_decides::<T, F>(*cmp, lt) implies apply_net(
                    pass_tail(n as int, p as int, q as int),
                    v@,
                    lt,
                ) == apply_net(
                    iter_pass(n as int, p as int, k0 as int, 0, p as int),
                    vp0,
                    lt,
                ) by {
                    assert(pass_tail(n as int, p as int, qold) == iter_pass(
                        n as int,
                        p as int,
                        q as int,
                        p as int,
                        d as int,
                    ));
                    lemma_apply_net_concat(
                        iter_row(n as int, p as int, p as int, d as int, 0),
                        pass_tail(n as int, p as int, q as int),
                        vrow0,
                        lt,
                    );
                };
            }
        }
        proof {
            assert(pass_tail(n as int, p as int, q as int) =~= Seq::<(int, int)>::empty());
        }
        let ghost pold = p as int;
        p = p / 2;
        proof {
            assert forall|lt: spec_fn(T, T) -> bool| #[trigger]
                cmp_decides::<T, F>(*cmp, lt) implies apply_net(
                iter_net_from(n as int, k0 as int, p as int),
                v@,
                lt,
            ) == apply_net(iter_net_from(n as int, k0 as int, k0 as int), v0, lt) by {
                assert(iter_net_from(n as int, k0 as int, pold) == iter_pass(
                    n as int,
                    pold,
                    k0 as int,
                    0,
                    pold,
                ) + iter_net_from(n as int, k0 as int, p as int));
                lemma_apply_net_concat(
                    iter_pass(n as int, pold, k0 as int, 0, pold),
                    iter_net_from(n as int, k0 as int, p as int),
                    vp0,
                    lt,
                );
            };
        }
    }
    proof {
        assert(iter_net_from(n as int, k0 as int, p as int) =~= Seq::<(int, int)>::empty());
    }
}

} // verus!
