//! A data-oblivious, constant-time sorting network.
//!
//! Both engines sort in place through a fixed, length-determined schedule of
//! compare-and-swap operations: control flow and memory accesses depend only on
//! the length of the sequence, never on the element values. Elements are
//! exchanged by `subtle`'s branch-free conditional swap, driven by a
//! caller-supplied constant-time comparator.

pub mod ct;
pub mod model;
pub mod iterative;
pub mod recursive;

pub use ct::{choice_holds, cmp_callable, cmp_decides, lt_u64};
pub use model::prior_power_of_two;

use iterative::{iter_net, lemma_iter_net_sorted_no_op, sort_iter_whole};
use model::{apply_net, flip_lt, lemma_apply_flip_net, sorted_asc};
use recursive::{
    lemma_net_asc_in_range, lemma_net_desc_is_flipped, net_asc, net_desc, sort_asc_range,
    sort_desc_range,
};
use vstd::prelude::*;

verus! {

/// Sort `v` ascending in place through the recursive network engine. Same
/// length in, same values out, and for a comparator that decides a strict
/// order `lt`, the result is exactly the network `net_asc` run over the input:
/// a schedule determined by the length alone.
pub fn const_sort<T, F>(v: &mut Vec<T>, cmp: &F) where
    T: subtle::ConditionallySelectable,
    F: Fn(&T, &T) -> subtle::Choice,

    requires
        cmp_callable::<T, F>(*cmp),
    ensures
        final(v)@.len() == old(v)@.len(),
        final(v)@.to_multiset() == old(v)@.to_multiset(),
        forall|lt: spec_fn(T, T) -> bool| #[trigger]
            cmp_decides::<T, F>(*cmp, lt) ==> final(v)@ == apply_net(
                net_asc(0, old(v)@.len() as int),
                old(v)@,
                lt,
            ),
{
    const_sort_asc(v, cmp)
}

/// The ascending entry of the recursive engine: sorts the whole of `v` in
/// place by running the schedule `net_asc(0, v.len())`.
pub fn const_sort_asc<T, F>(v: &mut Vec<T>, cmp: &F) where
    T: subtle::ConditionallySelectable,
    F: Fn(&T, &T) -> subtle::Choice,

    requires
        cmp_callable::<T, F>(*cmp),
    ensures
        final(v)@.len() == old(v)@.len(),
        final(v)@.to_multiset() == old(v)@.to_multiset(),
        forall|lt: spec_fn(T, T) -> bool| #[trigger]
            cmp_decides::<T, F>(*cmp, lt) ==> final(v)@ == apply_net(
                net_asc(0, old(v)@.len() as int),
                old(v)@,
                lt,
            ),
{
    let n = v.len();
    sort_asc_range(v, 0, n, cmp);
}

/// The descending entry of the recursive engine: sorts the whole of `v` in
/// place by running the schedule `net_desc(0, v.len())`.
pub fn const_sort_desc<T, F>(v: &mut Vec<T>, cmp: &F) where
    T: subtle::ConditionallySelectable,
    F: Fn(&T, &T) -> subtle::Choice,

    requires
        cmp_callable::<T, F>(*cmp),
    ensures
        final(v)@.len() == old(v)@.len(),
        final(v)@.to_multiset() == old(v)@.to_multiset(),
        forall|lt: spec_fn(T, T) -> bool| #[trigger]
            cmp_decides::<T, F>(*cmp, lt) ==> final(v)@ == apply_net(
                net_desc(0, old(v)@.len() as int),
                old(v)@,
                lt,
            ),
        forall|lt: spec_fn(T, T) -> bool| #[trigger]
            cmp_decides::<T, F>(*cmp, lt) ==> final(v)@ == apply_net(
                net_asc(0, old(v)@.len() as int),
                old(v)@,
                flip_lt(lt),
            ),
{
    let n = v.len();
    sort_desc_range(v, 0, n, cmp);
    proof {
        lemma_desc_is_asc_under_flipped_order(old(v)@);
    }
}

/// The duality of the two directions: the descending schedule is the ascending
/// schedule with every compare-and-swap turned around, so sorting descending
/// under an order is sorting ascending under the reversed order.
pub proof fn lemma_desc_is_asc_under_flipped_order<T>(s: Seq<T>)
    ensures
        forall|lt: spec_fn(T, T) -> bool|
            #![trigger apply_net(net_desc(0, s.len() as int), s, lt)]
            apply_net(net_desc(0, s.len() as int), s, lt) == apply_net(
                net_asc(0, s.len() as int),
                s,
                flip_lt(lt),
            ),
{
    lemma_net_desc_is_flipped(0, s.len() as int);
    lemma_net_asc_in_range(0, s.len() as int);
    assert forall|lt: spec_fn(T, T) -> bool|
        #![trigger apply_net(net_desc(0, s.len() as int), s, lt)]
        apply_net(net_desc(0, s.len() as int), s, lt) == apply_net(
        net_asc(0, s.len() as int),
        s,
        flip_lt(lt),
    ) by {
        lemma_apply_flip_net(net_asc(0, s.len() as int), s, lt);
    };
}

/// The ascending entry of the iterative engine: sorts the whole of `v` in
/// place by running the schedule `iter_net(v.len())`, generated by bit
/// arithmetic over loop counters instead of recursion.
pub fn const_sort_iter<T, F>(v: &mut Vec<T>, cmp: &F) where
    T: subtle::ConditionallySelectable,
    F: Fn(&T, &T) -> subtle::Choice,

    requires
        cmp_callable::<T, F>(*cmp),
    ensures
        final(v)@.len() == old(v)@.len(),
        final(v)@.to_multiset() == old(v)@.to_multiset(),
        forall|lt: spec_fn(T, T) -> bool| #[trigger]
            cmp_decides::<T, F>(*cmp, lt) ==> final(v)@ == apply_net(
                iter_net(old(v)@.len() as int),
                old(v)@,
                lt,
            ),
        forall|lt: spec_fn(T, T) -> bool| #[trigger]
            cmp_decides::<T, F>(*cmp, lt) && sorted_asc(old(v)@, lt) ==> final(v)@ == old(v)@,
{
    sort_iter_whole(v, cmp);
    proof {
        assert forall|lt: spec_fn(T, T) -> bool|
            #[trigger] cmp_decides::<T, F>(*cmp, lt) && sorted_asc(old(v)@, lt) implies v@ == old(
            v,
        )@ by {
            lemma_iter_net_sorted_no_op(old(v)@, lt);
        };
    }
}

/// The comparison schedule either engine runs is determined by the length of
/// the sequence alone: for two sequences of equal length, whatever values they
/// hold, each engine is bound by its contract to the same ordered list of
/// index pairs.
pub proof fn lemma_schedule_length_determined<T>(s1: Seq<T>, s2: Seq<T>)
    requires
        s1.len() == s2.len(),
    ensures
        net_asc(0, s1.len() as int) == net_asc(0, s2.len() as int),
        net_desc(0, s1.len() as int) == net_desc(0, s2.len() as int),
        iter_net(s1.len() as int) == iter_net(s2.len() as int),
{
}

} // verus!
