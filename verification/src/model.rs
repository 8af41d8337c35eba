//! The mathematical model of a sorting network: a schedule of compare-and-swap
//! positions, determined by the length of the sequence alone, and the effect of
//! running such a schedule over a sequence under a given strict order.

use vstd::prelude::*;

verus! {

/// The largest power of two strictly below `n`, or 0 when `n <= 1`: the split
/// point of the arbitrary-length merge step.
pub open spec fn prior_pow2(n: int) -> int
    decreases n,
{
    if n <= 1 {
        0
    } else if n == 2 {
        1
    } else {
        2 * prior_pow2((n + 1) / 2)
    }
}

/// `x` is a power of two.
pub open spec fn is_pow2(x: int) -> bool
    decreases x,
{
    if x <= 0 {
        false
    } else if x == 1 {
        true
    } else {
        x % 2 == 0 && is_pow2(x / 2)
    }
}

/// For `n >= 2`, `prior_pow2(n)` lies in `[1, n)` and covers at least half of `n`.
pub proof fn lemma_prior_pow2_bounds(n: int)
    requires
        2 <= n,
    ensures
        1 <= prior_pow2(n),
        prior_pow2(n) < n,
        n <= 2 * prior_pow2(n),
    decreases n,
{
    if n > 2 {
        lemma_prior_pow2_bounds((n + 1) / 2);
    }
}

/// `prior_pow2(n)` is a power of two for `n >= 2`.
pub proof fn lemma_prior_pow2_is_pow2(n: int)
    requires
        2 <= n,
    ensures
        is_pow2(prior_pow2(n)),
    decreases n,
{
    if n > 2 {
        lemma_prior_pow2_is_pow2((n + 1) / 2);
        lemma_prior_pow2_bounds((n + 1) / 2);
    }
}

/// Between two powers of two there is a factor of at least two.
pub proof fn lemma_pow2_double_le(p: int, q: int)
    requires
        is_pow2(p),
        is_pow2(q),
        p < q,
    ensures
        2 * p <= q,
    decreases q,
{
    if p < q / 2 {
        lemma_pow2_double_le(p, q / 2);
    } else if q / 2 < p {
        lemma_pow2_double_le(q / 2, p);
    }
}

/// The largest power of two strictly below `n`, or 0 when `n <= 1`: the point
/// at which the merge step splits a range of length `n`.
pub fn prior_power_of_two(n: usize) -> (m: usize)
    ensures
        m as int == prior_pow2(n as int),
        n <= 1 ==> m == 0,
        n >= 2 ==> is_pow2(m as int) && m < n && n <= 2 * m,
    decreases n,
{
    proof {
        if n >= 2 {
            lemma_prior_pow2_bounds(n as int);
            lemma_prior_pow2_is_pow2(n as int);
        }
    }
    if n <= 1 {
        0
    } else if n == 2 {
        1
    } else {
        let half: usize = n - n / 2;
        proof {
            assert(half as int == (n as int + 1) / 2);
            lemma_prior_pow2_bounds((n as int + 1) / 2);
        }
        2 * prior_power_of_two(half)
    }
}

/// The sequence `s` with the values at positions `a` and `b` exchanged.
pub open spec fn swap_at<T>(s: Seq<T>, a: int, b: int) -> Seq<T> {
    s.update(a, s[b]).update(b, s[a])
}

/// One compare-and-swap of the network: exchange positions `a` and `b` exactly
/// when `lt` holds of the value at `a` and the value at `b`.
pub open spec fn apply_one<T>(s: Seq<T>, a: int, b: int, lt: spec_fn(T, T) -> bool) -> Seq<T> {
    if lt(s[a], s[b]) {
        swap_at(s, a, b)
    } else {
        s
    }
}

/// Run a whole schedule of compare-and-swap positions over `s`, first entry first.
pub open spec fn apply_net<T>(net: Seq<(int, int)>, s: Seq<T>, lt: spec_fn(T, T) -> bool) -> Seq<T>
    decreases net.len(),
{
    if net.len() == 0 {
        s
    } else {
        apply_net(net.drop_first(), apply_one(s, net[0].0, net[0].1, lt), lt)
    }
}

/// Running a concatenated schedule is running its parts one after the other.
pub proof fn lemma_apply_net_concat<T>(
    n1: Seq<(int, int)>,
    n2: Seq<(int, int)>,
    s: Seq<T>,
    lt: spec_fn(T, T) -> bool,
)
    ensures
        apply_net(n1 + n2, s, lt) == apply_net(n2, apply_net(n1, s, lt), lt),
    decreases n1.len(),
{
    if n1.len() == 0 {
        assert(n1 + n2 =~= n2);
    } else {
        assert((n1 + n2).drop_first() =~= n1.drop_first() + n2);
        lemma_apply_net_concat(n1.drop_first(), n2, apply_one(s, n1[0].0, n1[0].1, lt), lt);
    }
}

/// `lt` is a strict total order: asymmetric, transitive, and any two distinct
/// values are ordered one way or the other.
pub open spec fn strict_total<T>(lt: spec_fn(T, T) -> bool) -> bool {
    &&& forall|a: T, b: T| #[trigger] lt(a, b) ==> !lt(b, a)
    &&& forall|a: T, b: T, c: T| #[trigger] lt(a, b) && #[trigger] lt(b, c) ==> lt(a, c)
    &&& forall|a: T, b: T| #![trigger lt(a, b)] !lt(a, b) && !lt(b, a) ==> a == b
}

/// Every entry of the schedule stays within the positions `[lo, hi)`.
pub open spec fn net_in_range(net: Seq<(int, int)>, lo: int, hi: int) -> bool {
    forall|k: int|
        0 <= k < net.len() ==> lo <= (#[trigger] net[k]).0 < hi && lo <= net[k].1 < hi
}

/// Staying in range is preserved by putting two schedules one after the other.
pub proof fn lemma_net_in_range_concat(a: Seq<(int, int)>, b: Seq<(int, int)>, lo: int, hi: int)
    requires
        net_in_range(a, lo, hi),
        net_in_range(b, lo, hi),
    ensures
        net_in_range(a + b, lo, hi),
{
    assert forall|k: int| 0 <= k < (a + b).len() implies lo <= (#[trigger] (a + b)[k]).0 < hi
        && lo <= (a + b)[k].1 < hi by {
        if k < a.len() {
            assert((a + b)[k] == a[k]);
        } else {
            assert((a + b)[k] == b[k - a.len()]);
        }
    };
}

/// A schedule within a range is within any wider range.
pub proof fn lemma_net_in_range_widen(net: Seq<(int, int)>, lo: int, hi: int, lo2: int, hi2: int)
    requires
        net_in_range(net, lo, hi),
        lo2 <= lo,
        hi <= hi2,
    ensures
        net_in_range(net, lo2, hi2),
{
}

/// The reversed order: `flip_lt(lt)` holds of a pair exactly when `lt` holds of
/// it the other way around.
pub open spec fn flip_lt<T>(lt: spec_fn(T, T) -> bool) -> spec_fn(T, T) -> bool {
    |x: T, y: T| lt(y, x)
}

/// The schedule with every compare-and-swap turned around.
pub open spec fn flip_net(net: Seq<(int, int)>) -> Seq<(int, int)> {
    net.map_values(|e: (int, int)| (e.1, e.0))
}

/// Turning a schedule around distributes over concatenation.
pub proof fn lemma_flip_net_concat(a: Seq<(int, int)>, b: Seq<(int, int)>)
    ensures
        flip_net(a + b) == flip_net(a) + flip_net(b),
{
    assert(flip_net(a + b) =~= flip_net(a) + flip_net(b));
}

/// Turning a schedule around twice gives it back.
pub proof fn lemma_flip_net_involutive(net: Seq<(int, int)>)
    ensures
        flip_net(flip_net(net)) == net,
{
    assert(flip_net(flip_net(net)) =~= net);
}

/// Running a turned-around schedule is running the schedule itself under the
/// reversed order: each compare-and-swap exchanges the same two positions, only
/// the direction of the comparison is mirrored.
pub proof fn lemma_apply_flip_net<T>(net: Seq<(int, int)>, s: Seq<T>, lt: spec_fn(T, T) -> bool)
    requires
        net_in_range(net, 0, s.len() as int),
    ensures
        apply_net(flip_net(net), s, lt) == apply_net(net, s, flip_lt(lt)),
    decreases net.len(),
{
    if net.len() == 0 {
        assert(flip_net(net) =~= Seq::<(int, int)>::empty());
    } else {
        let a = net[0].0;
        let b = net[0].1;
        assert(flip_net(net)[0] == (b, a));
        assert(flip_net(net).drop_first() =~= flip_net(net.drop_first()));
        assert(apply_one(s, b, a, lt) == apply_one(s, a, b, flip_lt(lt))) by {
            assert(flip_lt(lt)(s[a], s[b]) == lt(s[b], s[a]));
            if lt(s[b], s[a]) {
                assert(swap_at(s, b, a) =~= swap_at(s, a, b));
            }
        };
        assert(apply_one(s, b, a, lt).len() == s.len());
        assert(net_in_range(net.drop_first(), 0, s.len() as int)) by {
            assert(forall|k: int|
                0 <= k < net.drop_first().len() ==> net.drop_first()[k] == net[k + 1]);
        };
        lemma_apply_flip_net(net.drop_first(), apply_one(s, b, a, lt), lt);
    }
}

/// Under a strict total order there is only one sorted arrangement: two sorted
/// sequences holding the same values the same number of times are equal.
pub proof fn lemma_sorted_unique<T>(s1: Seq<T>, s2: Seq<T>, lt: spec_fn(T, T) -> bool)
    requires
        strict_total(lt),
        sorted_asc(s1, lt),
        sorted_asc(s2, lt),
        s1.to_multiset() == s2.to_multiset(),
    ensures
        s1 == s2,
    decreases s1.len(),
{
    broadcast use vstd::seq_lib::group_to_multiset_ensures;

    assert(s1.to_multiset().len() == s1.len());
    assert(s2.to_multiset().len() == s2.len());
    if s1.len() == 0 {
        assert(s1 =~= s2);
    } else {
        assert(s2.contains(s1[0])) by {
            assert(s1.contains(s1[0]));
            assert(s1.to_multiset().count(s1[0]) > 0);
            assert(s2.to_multiset().count(s1[0]) > 0);
        };
        assert(s1.contains(s2[0])) by {
            assert(s2.contains(s2[0]));
            assert(s2.to_multiset().count(s2[0]) > 0);
            assert(s1.to_multiset().count(s2[0]) > 0);
        };
        let j = choose|j: int| 0 <= j < s2.len() && s2[j] == s1[0];
        let i = choose|i: int| 0 <= i < s1.len() && s1[i] == s2[0];
        assert(!lt(s2[j], s2[0]));
        assert(!lt(s1[i], s1[0]));
        assert(s1[0] == s2[0]);
        assert(s1.drop_first() =~= s1.remove(0));
        assert(s2.drop_first() =~= s2.remove(0));
        assert(s1.drop_first().to_multiset() == s2.drop_first().to_multiset());
        assert(sorted_asc(s1.drop_first(), lt)) by {
            assert(forall|k: int| 0 <= k < s1.drop_first().len() ==> s1.drop_first()[k] == s1[k
                + 1]);
        };
        assert(sorted_asc(s2.drop_first(), lt)) by {
            assert(forall|k: int| 0 <= k < s2.drop_first().len() ==> s2.drop_first()[k] == s2[k
                + 1]);
        };
        lemma_sorted_unique(s1.drop_first(), s2.drop_first(), lt);
        assert forall|k: int| 0 <= k < s1.len() implies s1[k] == s2[k] by {
            if k > 0 {
                assert(s1.drop_first()[k - 1] == s2.drop_first()[k - 1]);
            }
        };
        assert(s1 =~= s2);
    }
}

/// `s` is sorted ascending under the strict order `lt`: no later position holds
/// a strictly smaller value than an earlier one.
pub open spec fn sorted_asc<T>(s: Seq<T>, lt: spec_fn(T, T) -> bool) -> bool {
    forall|i: int, j: int| 0 <= i <= j < s.len() ==> !lt(#[trigger] s[j], #[trigger] s[i])
}

/// `s` is sorted descending under the strict order `lt`: no later position
/// holds a strictly larger value than an earlier one.
pub open spec fn sorted_desc<T>(s: Seq<T>, lt: spec_fn(T, T) -> bool) -> bool {
    forall|i: int, j: int| 0 <= i <= j < s.len() ==> !lt(#[trigger] s[i], #[trigger] s[j])
}

/// Descending output is the reversal of ascending output: under a strict total
/// order, a descending-sorted sequence holding the same values the same number
/// of times as an ascending-sorted one is exactly its reversal.
pub proof fn lemma_desc_sorted_is_reversed_asc<T>(a: Seq<T>, d: Seq<T>, lt: spec_fn(T, T) -> bool)
    requires
        strict_total(lt),
        sorted_asc(a, lt),
        sorted_desc(d, lt),
        a.to_multiset() == d.to_multiset(),
    ensures
        d == a.reverse(),
{
    broadcast use vstd::seq_lib::group_to_multiset_ensures;

    assert(a.to_multiset().len() == a.len());
    assert(d.to_multiset().len() == d.len());
    assert(sorted_asc(d.reverse(), lt)) by {
        assert forall|i: int, j: int| 0 <= i <= j < d.reverse().len() implies !lt(
            #[trigger] d.reverse()[j],
            #[trigger] d.reverse()[i],
        ) by {
            assert(d.reverse()[j] == d[d.len() - 1 - j]);
            assert(d.reverse()[i] == d[d.len() - 1 - i]);
        };
    };
    d.lemma_reverse_to_multiset();
    lemma_sorted_unique(a, d.reverse(), lt);
    assert forall|k: int| 0 <= k < d.len() implies d[k] == a.reverse()[k] by {
        assert(a.reverse()[k] == a[a.len() - 1 - k]);
        assert(d.reverse()[a.len() - 1 - k] == d[k]);
    };
    assert(d =~= a.reverse());
}

/// Every entry of the schedule compares a position with a strictly earlier one
/// (the ascending orientation) and stays within `[0, n)`.
pub open spec fn asc_oriented(net: Seq<(int, int)>, n: int) -> bool {
    forall|k: int|
        0 <= k < net.len() ==> 0 <= (#[trigger] net[k]).1 && net[k].1 < net[k].0 && net[k].0 < n
}

/// Orientation is preserved by putting two schedules one after the other.
pub proof fn lemma_asc_oriented_concat(a: Seq<(int, int)>, b: Seq<(int, int)>, n: int)
    requires
        asc_oriented(a, n),
        asc_oriented(b, n),
    ensures
        asc_oriented(a + b, n),
{
    assert forall|k: int| 0 <= k < (a + b).len() implies 0 <= (#[trigger] (a + b)[k]).1 && (a
        + b)[k].1 < (a + b)[k].0 && (a + b)[k].0 < n by {
        if k < a.len() {
            assert((a + b)[k] == a[k]);
        } else {
            assert((a + b)[k] == b[k - a.len()]);
        }
    };
}

/// An ascending-oriented schedule leaves a sorted sequence exactly as it is:
/// each of its swap predicates evaluates false there.
pub proof fn lemma_apply_net_sorted_no_op<T>(
    net: Seq<(int, int)>,
    s: Seq<T>,
    lt: spec_fn(T, T) -> bool,
)
    requires
        sorted_asc(s, lt),
        asc_oriented(net, s.len() as int),
    ensures
        apply_net(net, s, lt) == s,
    decreases net.len(),
{
    if net.len() > 0 {
        let a = net[0].0;
        let b = net[0].1;
        assert(!lt(s[a], s[b]));
        assert(apply_one(s, a, b, lt) == s);
        assert(asc_oriented(net.drop_first(), s.len() as int)) by {
            assert forall|k: int| 0 <= k < net.drop_first().len() implies 0 <= (#[trigger] net
                .drop_first()[k]).1 && net.drop_first()[k].1 < net.drop_first()[k].0
                && net.drop_first()[k].0 < s.len() by {
                assert(net.drop_first()[k] == net[k + 1]);
            };
        };
        lemma_apply_net_sorted_no_op(net.drop_first(), s, lt);
    }
}

/// Exchanging two positions does not change which values a sequence holds.
pub proof fn lemma_swap_at_multiset<T>(s: Seq<T>, a: int, b: int)
    requires
        0 <= a < s.len(),
        0 <= b < s.len(),
        a != b,
    ensures
        swap_at(s, a, b).to_multiset() == s.to_multiset(),
{
    broadcast use vstd::seq_lib::group_to_multiset_ensures;

    let s1 = s.update(a, s[b]);
    assert(s.contains(s[a]));
    assert(s1.to_multiset() == s.to_multiset().insert(s[b]).remove(s[a]));
    assert(s1[b] == s[b]);
    assert(swap_at(s, a, b).to_multiset() == s1.to_multiset().insert(s[a]).remove(s[b]));
    assert(swap_at(s, a, b).to_multiset() =~= s.to_multiset());
}

} // verus!
