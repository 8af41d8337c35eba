//! The constant-time compare-and-swap primitive, built on the `subtle` crate.
//!
//! The only trusted surface of the library stands here: the declaration of
//! `subtle::Choice`, the spec-level truth value it carries, and two small
//! wrappers around `subtle`'s conditional swap and constant-time comparison.

use vstd::prelude::*;

use crate::model::{apply_one, swap_at, lemma_swap_at_multiset};
use subtle::ConstantTimeLess;

verus! {

/// `subtle::Choice`, declared so it can stand in signatures: an opaque
/// constant-time boolean carrier, never inspected by the sorting logic.
#[verifier::external_type_specification]
#[verifier::external_body]
pub struct ExChoice(subtle::Choice);

/// The truth value a `subtle::Choice` carries (`Choice(1)` is true, `Choice(0)`
/// false). It is given meaning only through the contracts of the trusted
/// wrappers below, which use it consistently with `subtle`'s documentation;
/// they rely on every choice holding 0 or 1, which `subtle`'s whole interface
/// demands and maintains.
pub uninterp spec fn choice_holds(c: subtle::Choice) -> bool;

/// Relies on `subtle::ConditionallySelectable::conditional_swap`: it exchanges
/// the two elements when the choice carries true and reassigns both to
/// themselves when it carries false, with no other effect.
#[verifier::external_body]
fn ct_swap_at<T: subtle::ConditionallySelectable>(
    v: &mut Vec<T>,
    a: usize,
    b: usize,
    c: subtle::Choice,
)
    requires
        a < b,
        b < old(v).len(),
    ensures
        final(v)@ == (if choice_holds(c) {
            swap_at(old(v)@, a as int, b as int)
        } else {
            old(v)@
        }),
{
    let (left, right) = v.split_at_mut(b);
    T::conditional_swap(&mut left[a], &mut right[0], c);
}

/// Relies on `subtle::ConstantTimeLess::ct_lt` for `u64`: the returned choice
/// carries true exactly when the first operand is below the second.
#[verifier::external_body]
fn u64_ct_lt(a: &u64, b: &u64) -> (c: subtle::Choice)
    ensures
        choice_holds(c) == (*a < *b),
{
    a.ct_lt(b)
}

/// A constant-time ascending comparator for `u64`: the choice it returns
/// carries true exactly when `a < b`.
pub fn lt_u64(a: &u64, b: &u64) -> (c: subtle::Choice)
    ensures
        choice_holds(c) == (*a < *b),
{
    u64_ct_lt(a, b)
}

/// The comparator may be called on any pair of elements.
pub open spec fn cmp_callable<T, F: Fn(&T, &T) -> subtle::Choice>(cmp: F) -> bool {
    forall|x: &T, y: &T| #[trigger] call_requires(cmp, (x, y))
}

/// The comparator decides the strict order `lt`: whenever it returns a choice
/// for a pair of elements, that choice carries exactly `lt` of the pair.
pub open spec fn cmp_decides<T, F: Fn(&T, &T) -> subtle::Choice>(
    cmp: F,
    lt: spec_fn(T, T) -> bool,
) -> bool {
    forall|x: &T, y: &T, c: subtle::Choice|
        #[trigger] call_ensures(cmp, (x, y), c) ==> choice_holds(c) == lt(*x, *y)
}

/// The shared primitive of both engines: compute the comparator's choice on the
/// values at positions `a` and `b`, then exchange those positions exactly when
/// the choice carries true, branching only on the public indices.
pub(crate) fn compare_and_swap<T, F>(v: &mut Vec<T>, a: usize, b: usize, cmp: &F) where
    T: subtle::ConditionallySelectable,
    F: Fn(&T, &T) -> subtle::Choice,

    requires
        a < old(v).len(),
        b < old(v).len(),
        a != b,
        cmp_callable::<T, F>(*cmp),
    ensures
        final(v)@.len() == old(v)@.len(),
        final(v)@.to_multiset() == old(v)@.to_multiset(),
        final(v)@ == old(v)@ || final(v)@ == swap_at(old(v)@, a as int, b as int),
        forall|k: int|
            0 <= k < old(v)@.len() && k != a && k != b ==> final(v)@[k] == old(v)@[k],
        forall|lt: spec_fn(T, T) -> bool| #[trigger]
            cmp_decides::<T, F>(*cmp, lt) ==> final(v)@ == apply_one(
                old(v)@,
                a as int,
                b as int,
                lt,
            ),
{
    let x: T = v[a];
    let y: T = v[b];
    let c: subtle::Choice = cmp(&x, &y);
    if a < b {
        ct_swap_at(v, a, b, c);
    } else {
        ct_swap_at(v, b, a, c);
        proof {
            assert(swap_at(old(v)@, b as int, a as int) =~= swap_at(old(v)@, a as int, b as int));
        }
    }
    proof {
        lemma_swap_at_multiset(old(v)@, a as int, b as int);
        assert forall|lt: spec_fn(T, T) -> bool| #[trigger]
            cmp_decides::<T, F>(*cmp, lt) implies v@ == apply_one(
            old(v)@,
            a as int,
            b as int,
            lt,
        ) by {
            assert(choice_holds(c) == lt(x, y));
        };
    }
}

} // verus!
