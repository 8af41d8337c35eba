//! The recursive network engine: bitonic divide-and-conquer, generalized to
//! arbitrary lengths through the power-of-two split of the merge step.
//!
//! Each executable function realizes exactly the schedule given by the spec
//! functions `net_asc` / `net_desc` / `net_merge_asc` / `net_merge_desc`, which
//! depend on the position and length of the range alone, never on the data.

use vstd::prelude::*;

use crate::ct::{cmp_callable, cmp_decides, compare_and_swap};
use crate::model::{
    apply_net, flip_net, lemma_apply_net_concat, lemma_flip_net_concat, lemma_flip_net_involutive,
    lemma_net_in_range_concat, lemma_net_in_range_widen, lemma_prior_pow2_bounds, net_in_range,
    prior_pow2, prior_power_of_two,
};

verus! {

/// Schedule of the ascending merge of the range starting at `lo` of length
/// `len`: cross compare-and-swaps at distance `prior_pow2(len)`, then the merge
/// of each part.
pub open spec fn net_merge_asc(lo: int, len: int) -> Seq<(int, int)>
    decreases len,
{
    if len <= 1 {
        Seq::empty()
    } else {
        let m = prior_pow2(len);
        proof {
            lemma_prior_pow2_bounds(len);
        }
        Seq::new((len - m) as nat, |i: int| (lo + m + i, lo + i)) + net_merge_asc(lo, m)
            + net_merge_asc(lo + m, len - m)
    }
}

/// Schedule of the descending merge: the mirror of `net_merge_asc`, with each
/// cross pair oriented the other way.
pub open spec fn net_merge_desc(lo: int, len: int) -> Seq<(int, int)>
    decreases len,
{
    if len <= 1 {
        Seq::empty()
    } else {
        let m = prior_pow2(len);
        proof {
            lemma_prior_pow2_bounds(len);
        }
        Seq::new((len - m) as nat, |i: int| (lo + i, lo + m + i)) + net_merge_desc(lo, m)
            + net_merge_desc(lo + m, len - m)
    }
}

/// Schedule of the ascending sort of the range starting at `lo` of length
/// `len`: sort the left half descending and the right half ascending, making
/// the range bitonic, then merge ascending.
pub open spec fn net_asc(lo: int, len: int) -> Seq<(int, int)>
    decreases len,
{
    if len <= 1 {
        Seq::empty()
    } else if len == 2 {
        seq![(lo + 1, lo)]
    } else {
        net_desc(lo, len / 2) + net_asc(lo + len / 2, len - len / 2) + net_merge_asc(lo, len)
    }
}

/// Schedule of the descending sort: the mirror of `net_asc`.
pub open spec fn net_desc(lo: int, len: int) -> Seq<(int, int)>
    decreases len,
{
    if len <= 1 {
        Seq::empty()
    } else if len == 2 {
        seq![(lo, lo + 1)]
    } else {
        net_asc(lo, len / 2) + net_desc(lo + len / 2, len - len / 2) + net_merge_desc(lo, len)
    }
}

/// Every entry of the ascending merge schedule stays within its range.
pub proof fn lemma_net_merge_asc_in_range(lo: int, len: int)
    ensures
        net_in_range(net_merge_asc(lo, len), lo, lo + len),
    decreases len,
{
    if len > 1 {
        let m = prior_pow2(len);
        lemma_prior_pow2_bounds(len);
        let row = Seq::new((len - m) as nat, |i: int| (lo + m + i, lo + i));
        assert(net_in_range(row, lo, lo + len));
        lemma_net_merge_asc_in_range(lo, m);
        lemma_net_in_range_widen(net_merge_asc(lo, m), lo, lo + m, lo, lo + len);
        lemma_net_merge_asc_in_range(lo + m, len - m);
        lemma_net_in_range_widen(net_merge_asc(lo + m, len - m), lo + m, lo + len, lo, lo + len);
        lemma_net_in_range_concat(row, net_merge_asc(lo, m), lo, lo + len);
        lemma_net_in_range_concat(
            row + net_merge_asc(lo, m),
            net_merge_asc(lo + m, len - m),
            lo,
            lo + len,
        );
    }
}

/// Every entry of the descending merge schedule stays within its range.
pub proof fn lemma_net_merge_desc_in_range(lo: int, len: int)
    ensures
        net_in_range(net_merge_desc(lo, len), lo, lo + len),
    decreases len,
{
    if len > 1 {
        let m = prior_pow2(len);
        lemma_prior_pow2_bounds(len);
        let row = Seq::new((len - m) as nat, |i: int| (lo + i, lo + m + i));
        assert(net_in_range(row, lo, lo + len));
        lemma_net_merge_desc_in_range(lo, m);
        lemma_net_in_range_widen(net_merge_desc(lo, m), lo, lo + m, lo, lo + len);
        lemma_net_merge_desc_in_range(lo + m, len - m);
        lemma_net_in_range_widen(net_merge_desc(lo + m, len - m), lo + m, lo + len, lo, lo + len);
        lemma_net_in_range_concat(row, net_merge_desc(lo, m), lo, lo + len);
        lemma_net_in_range_concat(
            row + net_merge_desc(lo, m),
            net_merge_desc(lo + m, len - m),
            lo,
            lo + len,
        );
    }
}

/// Every entry of the ascending sort schedule stays within its range.
pub proof fn lemma_net_asc_in_range(lo: int, len: int)
    ensures
        net_in_range(net_asc(lo, len), lo, lo + len),
    decreases len,
{
    if len == 2 {
        assert(net_in_range(seq![(lo + 1, lo)], lo, lo + 2));
    } else if len > 2 {
        let h = len / 2;
        lemma_net_desc_in_range(lo, h);
        lemma_net_in_range_widen(net_desc(lo, h), lo, lo + h, lo, lo + len);
        lemma_net_asc_in_range(lo + h, len - h);
        lemma_net_in_range_widen(net_asc(lo + h, len - h), lo + h, lo + len, lo, lo + len);
        lemma_net_merge_asc_in_range(lo, len);
        lemma_net_in_range_concat(net_desc(lo, h), net_asc(lo + h, len - h), lo, lo + len);
        lemma_net_in_range_concat(
            net_desc(lo, h) + net_asc(lo + h, len - h),
            net_merge_asc(lo, len),
            lo,
            lo + len,
        );
    }
}

/// Every entry of the descending sort schedule stays within its range.
pub proof fn lemma_net_desc_in_range(lo: int, len: int)
    ensures
        net_in_range(net_desc(lo, len), lo, lo + len),
    decreases len,
{
    if len == 2 {
        assert(net_in_range(seq![(lo, lo + 1)], lo, lo + 2));
    } else if len > 2 {
        let h = len / 2;
        lemma_net_asc_in_range(lo, h);
        lemma_net_in_range_widen(net_asc(lo, h), lo, lo + h, lo, lo + len);
        lemma_net_desc_in_range(lo + h, len - h);
        lemma_net_in_range_widen(net_desc(lo + h, len - h), lo + h, lo + len, lo, lo + len);
        lemma_net_merge_desc_in_range(lo, len);
        lemma_net_in_range_concat(net_asc(lo, h), net_desc(lo + h, len - h), lo, lo + len);
        lemma_net_in_range_concat(
            net_asc(lo, h) + net_desc(lo + h, len - h),
            net_merge_desc(lo, len),
            lo,
            lo + len,
        );
    }
}

/// The descending merge schedule is the ascending one with every
/// compare-and-swap turned around.
pub proof fn lemma_net_merge_desc_is_flipped(lo: int, len: int)
    ensures
        net_merge_desc(lo, len) == flip_net(net_merge_asc(lo, len)),
    decreases len,
{
    if len <= 1 {
        assert(net_merge_desc(lo, len) =~= flip_net(net_merge_asc(lo, len)));
    } else {
        let m = prior_pow2(len);
        lemma_prior_pow2_bounds(len);
        let row_a = Seq::new((len - m) as nat, |i: int| (lo + m + i, lo + i));
        let row_d = Seq::new((len - m) as nat, |i: int| (lo + i, lo + m + i));
        assert(row_d =~= flip_net(row_a));
        lemma_net_merge_desc_is_flipped(lo, m);
        lemma_net_merge_desc_is_flipped(lo + m, len - m);
        lemma_flip_net_concat(row_a, net_merge_asc(lo, m));
        lemma_flip_net_concat(row_a + net_merge_asc(lo, m), net_merge_asc(lo + m, len - m));
    }
}

/// The descending sort schedule is the ascending one with every
/// compare-and-swap turned around.
pub proof fn lemma_net_desc_is_flipped(lo: int, len: int)
    ensures
        net_desc(lo, len) == flip_net(net_asc(lo, len)),
    decreases len,
{
    if len <= 1 {
        assert(net_desc(lo, len) =~= flip_net(net_asc(lo, len)));
    } else if len == 2 {
        assert(net_desc(lo, 2) =~= flip_net(net_asc(lo, 2)));
    } else {
        let h = len / 2;
        lemma_net_desc_is_flipped(lo, h);
        lemma_net_desc_is_flipped(lo + h, len - h);
        lemma_net_merge_desc_is_flipped(lo, len);
        lemma_flip_net_involutive(net_asc(lo, h));
        lemma_flip_net_concat(net_desc(lo, h), net_asc(lo + h, len - h));
        lemma_flip_net_concat(net_desc(lo, h) + net_asc(lo + h, len - h), net_merge_asc(lo, len));
    }
}

/// Ascending merge of `v[lo..hi]` in place, following `net_merge_asc`.
pub(crate) fn merge_asc_range<T, F>(v: &mut Vec<T>, lo: usize, hi: usize, cmp: &F) where
    T: subtle::ConditionallySelectable,
    F: Fn(&T, &T) -> subtle::Choice,

    requires
        lo <= hi,
        hi <= old(v).len(),
        cmp_callable::<T, F>(*cmp),
    ensures
        final(v)@.len() == old(v)@.len(),
        final(v)@.to_multiset() == old(v)@.to_multiset(),
        forall|k: int|
            0 <= k < old(v)@.len() && !(lo <= k < hi) ==> final(v)@[k] == old(v)@[k],
        forall|lt: spec_fn(T, T) -> bool| #[trigger]
            cmp_decides::<T, F>(*cmp, lt) ==> final(v)@ == apply_net(
                net_merge_asc(lo as int, (hi - lo) as int),
                old(v)@,
                lt,
            ),
    decreases hi - lo,
{
    let n = hi - lo;
    if n <= 1 {
        return;
    }
    let m = prior_power_of_two(n);
    proof {
        lemma_prior_pow2_bounds(n as int);
    }
    let ghost v0 = v@;
    let ghost row = Seq::new((n - m) as nat, |i: int| ((lo + m) as int + i, lo as int + i));
    proof {
        assert(row.skip(0) =~= row);
    }
    let mut i: usize = 0;
    while i < n - m
        invariant
            lo <= hi <= v@.len(),
            v@.len() == v0.len(),
            n == hi - lo,
            1 <= m < n,
            m as int == prior_pow2(n as int),
            i <= n - m,
            cmp_callable::<T, F>(*cmp),
            row == Seq::new((n - m) as nat, |j: int| ((lo + m) as int + j, lo as int + j)),
            v@.to_multiset() == v0.to_multiset(),
            forall|k: int| 0 <= k < v0.len() && !(lo <= k < hi) ==> v@[k] == v0[k],
            forall|lt: spec_fn(T, T) -> bool| #[trigger]
                cmp_decides::<T, F>(*cmp, lt) ==> apply_net(row.skip(i as int), v@, lt)
                    == apply_net(row, v0, lt),
        decreases n - m - i,
    {
        let ghost vpre = v@;
        compare_and_swap(v, lo + m + i, lo + i, cmp);
        proof {
            assert(row.skip(i as int)[0] == ((lo + m + i) as int, (lo + i) as int));
            assert(row.skip(i as int).drop_first() =~= row.skip(i as int + 1));
            assert forall|lt: spec_fn(T, T) -> bool| #[trigger]
                cmp_decides::<T, F>(*cmp, lt) implies apply_net(
                row.skip(i as int + 1),
                v@,
                lt,
            ) == apply_net(row, v0, lt) by {
                assert(apply_net(row.skip(i as int), vpre, lt) == apply_net(
                    row.skip(i as int).drop_first(),
                    crate::model::apply_one(vpre, (lo + m + i) as int, (lo + i) as int, lt),
                    lt,
                ));
            };
        }
        i += 1;
    }
    proof {
        assert(row.skip(i as int) =~= Seq::<(int, int)>::empty());
    }
    let ghost v1 = v@;
    merge_asc_range(v, lo, lo + m, cmp);
    merge_asc_range(v, lo + m, hi, cmp);
    proof {
        assert forall|lt: spec_fn(T, T) -> bool| #[trigger]
            cmp_decides::<T, F>(*cmp, lt) implies v@ == apply_net(
            net_merge_asc(lo as int, n as int),
            v0,
            lt,
        ) by {
            let na = net_merge_asc(lo as int, m as int);
            let nb = net_merge_asc((lo + m) as int, (n - m) as int);
            assert(v1 == apply_net(row, v0, lt));
            lemma_apply_net_concat(row, na, v0, lt);
            lemma_apply_net_concat(row + na, nb, v0, lt);
            assert(net_merge_asc(lo as int, n as int) == row + na + nb);
        };
    }
}

/// Descending merge of `v[lo..hi]` in place, following `net_merge_desc`.
pub(crate) fn merge_desc_range<T, F>(v: &mut Vec<T>, lo: usize, hi: usize, cmp: &F) where
    T: subtle::ConditionallySelectable,
    F: Fn(&T, &T) -> subtle::Choice,

    requires
        lo <= hi,
        hi <= old(v).len(),
        cmp_callable::<T, F>(*cmp),
    ensures
        final(v)@.len() == old(v)@.len(),
        final(v)@.to_multiset() == old(v)@.to_multiset(),
        forall|k: int|
            0 <= k < old(v)@.len() && !(lo <= k < hi) ==> final(v)@[k] == old(v)@[k],
        forall|lt: spec_fn(T, T) -> bool| #[trigger]
            cmp_decides::<T, F>(*cmp, lt) ==> final(v)@ == apply_net(
                net_merge_desc(lo as int, (hi - lo) as int),
                old(v)@,
                lt,
            ),
    decreases hi - lo,
{
    let n = hi - lo;
    if n <= 1 {
        return;
    }
    let m = prior_power_of_two(n);
    proof {
        lemma_prior_pow2_bounds(n as int);
    }
    let ghost v0 = v@;
    let ghost row = Seq::new((n - m) as nat, |i: int| (lo as int + i, (lo + m) as int + i));
    proof {
        assert(row.skip(0) =~= row);
    }
    let mut i: usize = 0;
    while i < n - m
        invariant
            lo <= hi <= v@.len(),
            v@.len() == v0.len(),
            n == hi - lo,
            1 <= m < n,
            m as int == prior_pow2(n as int),
            i <= n - m,
            cmp_callable::<T, F>(*cmp),
            row == Seq::new((n - m) as nat, |j: int| (lo as int + j, (lo + m) as int + j)),
            v@.to_multiset() == v0.to_multiset(),
            forall|k: int| 0 <= k < v0.len() && !(lo <= k < hi) ==> v@[k] == v0[k],
            forall|lt: spec_fn(T, T) -> bool| #[trigger]
                cmp_decides::<T, F>(*cmp, lt) ==> apply_net(row.skip(i as int), v@, lt)
                    == apply_net(row, v0, lt),
        decreases n - m - i,
    {
        let ghost vpre = v@;
        compare_and_swap(v, lo + i, lo + m + i, cmp);
        proof {
            assert(row.skip(i as int)[0] == ((lo + i) as int, (lo + m + i) as int));
            assert(row.skip(i as int).drop_first() =~= row.skip(i as int + 1));
            assert forall|lt: spec_fn(T, T) -> bool| #[trigger]
                cmp_decides::<T, F>(*cmp, lt) implies apply_net(
                row.skip(i as int + 1),
                v@,
                lt,
            ) == apply_net(row, v0, lt) by {
                assert(apply_net(row.skip(i as int), vpre, lt) == apply_net(
                    row.skip(i as int).drop_first(),
                    crate::model::apply_one(vpre, (lo + i) as int, (lo + m + i) as int, lt),
                    lt,
                ));
            };
        }
        i += 1;
    }
    proof {
        assert(row.skip(i as int) =~= Seq::<(int, int)>::empty());
    }
    let ghost v1 = v@;
    merge_desc_range(v, lo, lo + m, cmp);
    merge_desc_range(v, lo + m, hi, cmp);
    proof {
        assert forall|lt: spec_fn(T, T) -> bool| #[trigger]
            cmp_decides::<T, F>(*cmp, lt) implies v@ == apply_net(
            net_merge_desc(lo as int, n as int),
            v0,
            lt,
        ) by {
            let na = net_merge_desc(lo as int, m as int);
            let nb = net_merge_desc((lo + m) as int, (n - m) as int);
            assert(v1 == apply_net(row, v0, lt));
            lemma_apply_net_concat(row, na, v0, lt);
            lemma_apply_net_concat(row + na, nb, v0, lt);
            assert(net_merge_desc(lo as int, n as int) == row + na + nb);
        };
    }
}

/// Ascending sort of `v[lo..hi]` in place, following `net_asc`.
pub(crate) fn sort_asc_range<T, F>(v: &mut Vec<T>, lo: usize, hi: usize, cmp: &F) where
    T: subtle::ConditionallySelectable,
    F: Fn(&T, &T) -> subtle::Choice,

    requires
        lo <= hi,
        hi <= old(v).len(),
        cmp_callable::<T, F>(*cmp),
    ensures
        final(v)@.len() == old(v)@.len(),
        final(v)@.to_multiset() == old(v)@.to_multiset(),
        forall|k: int|
            0 <= k < old(v)@.len() && !(lo <= k < hi) ==> final(v)@[k] == old(v)@[k],
        forall|lt: spec_fn(T, T) -> bool| #[trigger]
            cmp_decides::<T, F>(*cmp, lt) ==> final(v)@ == apply_net(
                net_asc(lo as int, (hi - lo) as int),
                old(v)@,
                lt,
            ),
    decreases hi - lo,
{
    let n = hi - lo;
    if n <= 1 {
        return;
    }
    if n == 2 {
        compare_and_swap(v, lo + 1, lo, cmp);
        proof {
            assert forall|lt: spec_fn(T, T) -> bool| #[trigger]
                cmp_decides::<T, F>(*cmp, lt) implies v@ == apply_net(
                net_asc(lo as int, 2),
                old(v)@,
                lt,
            ) by {
                reveal_with_fuel(apply_net, 2);
                let net = net_asc(lo as int, 2);
                assert(net == seq![((lo + 1) as int, lo as int)]);
                assert(net.drop_first().len() == 0);
                assert(v@ == crate::model::apply_one(old(v)@, (lo + 1) as int, lo as int, lt));
            };
        }
        return;
    }
    let m = n / 2;
    let ghost v0 = v@;
    sort_desc_range(v, lo, lo + m, cmp);
    sort_asc_range(v, lo + m, hi, cmp);
    merge_asc_range(v, lo, hi, cmp);
    proof {
        assert forall|lt: spec_fn(T, T) -> bool| #[trigger]
            cmp_decides::<T, F>(*cmp, lt) implies v@ == apply_net(
            net_asc(lo as int, n as int),
            v0,
            lt,
        ) by {
            let na = net_desc(lo as int, m as int);
            let nb = net_asc((lo + m) as int, (n - m) as int);
            let nc = net_merge_asc(lo as int, n as int);
            lemma_apply_net_concat(na, nb, v0, lt);
            lemma_apply_net_concat(na + nb, nc, v0, lt);
            assert(net_asc(lo as int, n as int) == na + nb + nc);
        };
    }
}

/// Descending sort of `v[lo..hi]` in place, following `net_desc`.
pub(crate) fn sort_desc_range<T, F>(v: &mut Vec<T>, lo: usize, hi: usize, cmp: &F) where
    T: subtle::ConditionallySelectable,
    F: Fn(&T, &T) -> subtle::Choice,

    requires
        lo <= hi,
        hi <= old(v).len(),
        cmp_callable::<T, F>(*cmp),
    ensures
        final(v)@.len() == old(v)@.len(),
        final(v)@.to_multiset() == old(v)@.to_multiset(),
        forall|k: int|
            0 <= k < old(v)@.len() && !(lo <= k < hi) ==> final(v)@[k] == old(v)@[k],
        forall|lt: spec_fn(T, T) -> bool| #[trigger]
            cmp_decides::<T, F>(*cmp, lt) ==> final(v)@ == apply_net(
                net_desc(lo as int, (hi - lo) as int),
                old(v)@,
                lt,
            ),
    decreases hi - lo,
{
    let n = hi - lo;
    if n <= 1 {
        return;
    }
    if n == 2 {
        compare_and_swap(v, lo, lo + 1, cmp);
        proof {
            assert forall|lt: spec_fn(T, T) -> bool| #[trigger]
                cmp_decides::<T, F>(*cmp, lt) implies v@ == apply_net(
                net_desc(lo as int, 2),
                old(v)@,
                lt,
            ) by {
                reveal_with_fuel(apply_net, 2);
                let net = net_desc(lo as int, 2);
                assert(net == seq![(lo as int, (lo + 1) as int)]);
                assert(net.drop_first().len() == 0);
                assert(v@ == crate::model::apply_one(old(v)@, lo as int, (lo + 1) as int, lt));
            };
        }
        return;
    }
    let m = n / 2;
    let ghost v0 = v@;
    sort_asc_range(v, lo, lo + m, cmp);
    sort_desc_range(v, lo + m, hi, cmp);
    merge_desc_range(v, lo, hi, cmp);
    proof {
        assert forall|lt: spec_fn(T, T) -> bool| #[trigger]
            cmp_decides::<T, F>(*cmp, lt) implies v@ == apply_net(
            net_desc(lo as int, n as int),
            v0,
            lt,
        ) by {
            let na = net_asc(lo as int, m as int);
            let nb = net_desc((lo + m) as int, (n - m) as int);
            let nc = net_merge_desc(lo as int, n as int);
            lemma_apply_net_concat(na, nb, v0, lt);
            lemma_apply_net_concat(na + nb, nc, v0, lt);
            assert(net_desc(lo as int, n as int) == na + nb + nc);
        };
    }
}

} // verus!
