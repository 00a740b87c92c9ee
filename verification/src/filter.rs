use vstd::prelude::*;
use vstd::relations::{sorted_by, total_ordering};
use vstd::seq_lib::{lemma_multiset_commutative, lemma_sorted_unique};
use std::cmp::Ordering;
use crate::error::FilterError;
use crate::arithmetic::{difference, from_int, product, quotient, sum, Arithmetic, Op};
use crate::scalar::{key_le, Scalar, FIFTH_BITS, ZERO_BITS};

verus! {

/// Orders two scalars as numbers. Two that cannot be told apart, or of which
/// one is not a number, are `Equal`.
pub fn f64_ordering(x: &Scalar, y: &Scalar) -> (r: Ordering)
    ensures
        match r {
            Ordering::Less => x.lt(*y),
            Ordering::Greater => !x.lt(*y) && y.lt(*x),
            Ordering::Equal => !x.lt(*y) && !y.lt(*x),
        },
{
    if x.lt(*y) {
        return Ordering::Less;
    }
    if y.lt(*x) {
        return Ordering::Greater;
    }
    Ordering::Equal
}

/// The least of the samples: the first of them that none after it is below.
pub open spec fn least(v: Seq<Scalar>) -> Scalar
    recommends
        v.len() > 0,
    decreases v.len(),
{
    if v.len() <= 1 {
        v[0]
    } else {
        let m = least(v.drop_last());
        if v.last().lt(m) {
            v.last()
        } else {
            m
        }
    }
}

/// The greatest of the samples: the last of them that none before it is above.
pub open spec fn greatest(v: Seq<Scalar>) -> Scalar
    recommends
        v.len() > 0,
    decreases v.len(),
{
    if v.len() <= 1 {
        v[0]
    } else {
        let m = greatest(v.drop_last());
        if v.last().lt(m) {
            m
        } else {
            v.last()
        }
    }
}

/// Among numbers the least sample is one of them, and none of them is below
/// it.
pub proof fn lemma_least_is_lower_bound(v: Seq<Scalar>)
    requires
        v.len() > 0,
        forall|i: int| 0 <= i < v.len() ==> !v[i].is_nan(),
    ensures
        v.contains(least(v)),
        forall|i: int| 0 <= i < v.len() ==> least(v).le(v[i]),
    decreases v.len(),
{
    if v.len() > 1 {
        let rest = v.drop_last();
        lemma_least_is_lower_bound(rest);
        let k = choose|k: int| 0 <= k < rest.len() && rest[k] == least(rest);
        assert(v[k] == least(rest));
        assert(v[v.len() - 1] == v.last());
        assert forall|i: int| 0 <= i < v.len() implies least(v).le(v[i]) by {
            if i < rest.len() {
                assert(least(rest).le(rest[i]));
            }
        }
    } else {
        assert(v[0] == least(v));
    }
}

/// Among numbers the greatest sample is one of them, and none of them is
/// above it.
pub proof fn lemma_greatest_is_upper_bound(v: Seq<Scalar>)
    requires
        v.len() > 0,
        forall|i: int| 0 <= i < v.len() ==> !v[i].is_nan(),
    ensures
        v.contains(greatest(v)),
        forall|i: int| 0 <= i < v.len() ==> v[i].le(greatest(v)),
    decreases v.len(),
{
    if v.len() > 1 {
        let rest = v.drop_last();
        lemma_greatest_is_upper_bound(rest);
        let k = choose|k: int| 0 <= k < rest.len() && rest[k] == greatest(rest);
        assert(v[k] == greatest(rest));
        assert(v[v.len() - 1] == v.last());
        assert forall|i: int| 0 <= i < v.len() implies v[i].le(greatest(v)) by {
            if i < rest.len() {
                assert(rest[i].le(greatest(rest)));
            }
        }
    } else {
        assert(v[0] == greatest(v));
    }
}

/// The distance between the greatest and the least sample.
pub open spec fn spread(unit: spec_fn(Op) -> Scalar, v: Seq<Scalar>) -> Scalar
    recommends
        v.len() > 0,
{
    difference(unit, greatest(v), least(v))
}

/// Computes the distance between the greatest and the least sample.
pub fn get_spread<F: Fn(Op) -> Scalar>(v: &Vec<Scalar>, unit: &Arithmetic<F>) -> (r: Scalar)
    requires
        v.len() > 0,
    ensures
        r == spread(unit.answers(), v@),
{
    let mut min_val = v[0];
    let mut max_val = v[0];
    let mut i: usize = 1;
    proof {
        assert(v@.take(1).len() == 1);
    }
    while i < v.len()
        invariant
            1 <= i <= v.len(),
            min_val == least(v@.take(i as int)),
            max_val == greatest(v@.take(i as int)),
        decreases v.len() - i,
    {
        proof {
            assert(v@.take(i + 1).drop_last() =~= v@.take(i as int));
        }
        if v[i].lt(min_val) {
            min_val = v[i];
        }
        if !v[i].lt(max_val) {
            max_val = v[i];
        }
        i += 1;
    }
    proof {
        assert(v@.take(v.len() as int) =~= v@);
    }
    unit.apply(Op::Sub(max_val, min_val))
}

/// The sum of the samples, taken from the left, starting from 0.
pub open spec fn total(unit: spec_fn(Op) -> Scalar, s: Seq<Scalar>) -> Scalar
    decreases s.len(),
{
    if s.len() == 0 {
        Scalar::from_bits(ZERO_BITS)
    } else {
        sum(unit, total(unit, s.drop_last()), s.last())
    }
}

/// The sum of the samples divided by their number.
pub open spec fn mean(unit: spec_fn(Op) -> Scalar, s: Seq<Scalar>) -> Scalar {
    quotient(unit, total(unit, s), from_int(unit, s.len() as u64))
}

/// Computes the mean of the samples.
pub fn mean_of<F: Fn(Op) -> Scalar>(s: &Vec<Scalar>, unit: &Arithmetic<F>) -> (r: Scalar)
    ensures
        r == mean(unit.answers(), s@),
{
    let mut acc = Scalar::from_bits(ZERO_BITS);
    let mut i: usize = 0;
    while i < s.len()
        invariant
            i <= s.len(),
            acc == total(unit.answers(), s@.take(i as int)),
        decreases s.len() - i,
    {
        proof {
            assert(s@.take(i + 1).drop_last() =~= s@.take(i as int));
        }
        acc = unit.apply(Op::Add(acc, s[i]));
        i += 1;
    }
    proof {
        assert(s@.take(s.len() as int) =~= s@);
    }
    let count = unit.apply(Op::FromInt(s.len() as u64));
    unit.apply(Op::Div(acc, count))
}

/// The width of the beam: a fifth of the spread of the samples.
pub open spec fn beam_width(unit: spec_fn(Op) -> Scalar, v: Seq<Scalar>) -> Scalar
    recommends
        v.len() > 0,
{
    product(unit, spread(unit, v), Scalar::from_bits(FIFTH_BITS))
}

/// Whether sample `j` lies in the beam of sample `i`: the square of their
/// distance is at most the beam's width.
pub open spec fn is_near(unit: spec_fn(Op) -> Scalar, v: Seq<Scalar>, beam: Scalar, i: int, j: int) -> bool {
    let d = difference(unit, v[j], v[i]);
    product(unit, d, d).le(beam)
}

/// How many of the first `k` samples, other than sample `i` itself, lie in
/// the beam of sample `i`.
pub open spec fn neighbours(unit: spec_fn(Op) -> Scalar, v: Seq<Scalar>, beam: Scalar, i: int, k: int) -> nat
    decreases k,
{
    if k <= 0 {
        0
    } else if k - 1 != i && is_near(unit, v, beam, i, k - 1) {
        neighbours(unit, v, beam, i, k - 1) + 1
    } else {
        neighbours(unit, v, beam, i, k - 1)
    }
}

/// Whether sample `c` has the most neighbours, and is the first that has.
pub open spec fn is_centre(unit: spec_fn(Op) -> Scalar, v: Seq<Scalar>, beam: Scalar, c: int) -> bool {
    &&& 0 <= c < v.len()
    &&& forall|i: int|
        0 <= i < v.len() ==> #[trigger] neighbours(unit, v, beam, i, v.len() as int) <= neighbours(
            unit,
            v,
            beam,
            c,
            v.len() as int,
        )
    &&& forall|i: int|
        0 <= i < c ==> #[trigger] neighbours(unit, v, beam, i, v.len() as int) < neighbours(
            unit,
            v,
            beam,
            c,
            v.len() as int,
        )
}

/// The first sample with the most neighbours.
pub open spec fn centre(unit: spec_fn(Op) -> Scalar, v: Seq<Scalar>, beam: Scalar) -> int {
    choose|c: int| is_centre(unit, v, beam, c)
}

/// Only one sample is the centre.
pub proof fn lemma_centre_unique(unit: spec_fn(Op) -> Scalar, v: Seq<Scalar>, beam: Scalar, c: int)
    requires
        is_centre(unit, v, beam, c),
    ensures
        centre(unit, v, beam) == c,
{
    let d = centre(unit, v, beam);
    assert(is_centre(unit, v, beam, d));
    let n = v.len() as int;
    if d < c {
        assert(neighbours(unit, v, beam, d, n) < neighbours(unit, v, beam, c, n));
        assert(neighbours(unit, v, beam, c, n) <= neighbours(unit, v, beam, d, n));
    } else if c < d {
        assert(neighbours(unit, v, beam, c, n) < neighbours(unit, v, beam, d, n));
        assert(neighbours(unit, v, beam, d, n) <= neighbours(unit, v, beam, c, n));
    }
}

/// Among the first `k` samples, sample `c` and those in its beam, in the order
/// of the samples.
pub open spec fn cluster(unit: spec_fn(Op) -> Scalar, v: Seq<Scalar>, beam: Scalar, c: int, k: int) -> Seq<
    Scalar,
>
    decreases k,
{
    if k <= 0 {
        Seq::<Scalar>::empty()
    } else if k - 1 == c || is_near(unit, v, beam, c, k - 1) {
        cluster(unit, v, beam, c, k - 1).push(v[k - 1])
    } else {
        cluster(unit, v, beam, c, k - 1)
    }
}

/// What the beam filter makes of the samples: the mean of the cluster round
/// the first sample that has the most neighbours.
pub open spec fn beam_mean(unit: spec_fn(Op) -> Scalar, v: Seq<Scalar>) -> Scalar
    recommends
        v.len() > 0,
{
    let beam = beam_width(unit, v);
    mean(unit, cluster(unit, v, beam, centre(unit, v, beam), v.len() as int))
}

/// Tells whether sample `j` lies in the beam of sample `i`.
fn near<F: Fn(Op) -> Scalar>(v: &Vec<Scalar>, beam: Scalar, i: usize, j: usize, unit: &Arithmetic<F>) -> (r: bool)
    requires
        i < v.len(),
        j < v.len(),
    ensures
        r == is_near(unit.answers(), v@, beam, i as int, j as int),
{
    let d = unit.apply(Op::Sub(v[j], v[i]));
    unit.apply(Op::Mul(d, d)).le(beam)
}

/// Counts the samples, other than sample `i`, in the beam of sample `i`.
fn count_neighbours<F: Fn(Op) -> Scalar>(v: &Vec<Scalar>, beam: Scalar, i: usize, unit: &Arithmetic<F>) -> (r: usize)
    requires
        i < v.len(),
    ensures
        r == neighbours(unit.answers(), v@, beam, i as int, v.len() as int),
{
    let mut count: usize = 0;
    let mut j: usize = 0;
    while j < v.len()
        invariant
            i < v.len(),
            j <= v.len(),
            count <= j,
            count == neighbours(unit.answers(), v@, beam, i as int, j as int),
        decreases v.len() - j,
    {
        if j != i && near(v, beam, i, j, unit) {
            count += 1;
        }
        j += 1;
    }
    count
}

/// Consolidates the samples by their densest cluster.
///
/// The beam is a fifth of the spread of the samples. A sample's neighbours are
/// the other samples whose squared distance from it is at most the beam. The
/// result is the mean of the first sample that has the most neighbours and of
/// its neighbours. Fails with `EmptySampleSet` when there is no sample.
pub fn beam_filter<F: Fn(Op) -> Scalar>(v: &Vec<Scalar>, unit: &Arithmetic<F>) -> (r: Result<Scalar, FilterError>)
    ensures
        match r {
            Ok(m) => v@.len() > 0 && m == beam_mean(unit.answers(), v@),
            Err(e) => e == FilterError::EmptySampleSet && v@.len() == 0,
        },
{
    let n = v.len();
    if n == 0 {
        return Err(FilterError::EmptySampleSet);
    }
    let beam = unit.apply(Op::Mul(get_spread(v, unit), Scalar::from_bits(FIFTH_BITS)));
    let mut best: usize = 0;
    let mut best_count: usize = count_neighbours(v, beam, 0, unit);
    let mut i: usize = 1;
    while i < n
        invariant
            n == v.len(),
            1 <= i <= n,
            best < i,
            best_count == neighbours(unit.answers(), v@, beam, best as int, n as int),
            forall|k: int| 0 <= k < i ==> #[trigger] neighbours(unit.answers(), v@, beam, k, n as int) <= best_count,
            forall|k: int| 0 <= k < best ==> #[trigger] neighbours(unit.answers(), v@, beam, k, n as int) < best_count,
        decreases n - i,
    {
        let count = count_neighbours(v, beam, i, unit);
        if count > best_count {
            best = i;
            best_count = count;
        }
        i += 1;
    }
    proof {
        lemma_centre_unique(unit.answers(), v@, beam, best as int);
    }
    let mut best_fit: Vec<Scalar> = Vec::new();
    let mut j: usize = 0;
    while j < n
        invariant
            n == v.len(),
            best < n,
            j <= n,
            best_fit@ == cluster(unit.answers(), v@, beam, best as int, j as int),
        decreases n - j,
    {
        if j == best || near(v, beam, best, j, unit) {
            best_fit.push(v[j]);
        }
        j += 1;
    }
    Ok(mean_of(&best_fit, unit))
}

/// Whether the samples stand in the order of their sort keys.
pub open spec fn ascending(s: Seq<Scalar>) -> bool {
    forall|i: int, j: int| 0 <= i < j < s.len() ==> s[i].sort_key() <= s[j].sort_key()
}

/// The samples in ascending order: negative values first, `-0` before `0`.
pub open spec fn sorted(s: Seq<Scalar>) -> Seq<Scalar> {
    s.sort_by(|a: Scalar, b: Scalar| key_le(a, b))
}

/// The sorted samples are the same samples, in the order of their sort keys.
pub proof fn lemma_sorted_is_ascending(s: Seq<Scalar>)
    ensures
        ascending(sorted(s)),
        sorted(s).to_multiset() == s.to_multiset(),
        sorted(s).len() == s.len(),
{
    let leq = |a: Scalar, b: Scalar| key_le(a, b);
    lemma_key_order_total();
    s.lemma_sort_by_ensures(leq);
    s.to_multiset_ensures();
    sorted(s).to_multiset_ensures();
    assert forall|i: int, j: int| 0 <= i < j < sorted(s).len() implies sorted(s)[i].sort_key() <= sorted(
        s,
    )[j].sort_key() by {
        assert(leq(sorted(s)[i], sorted(s)[j]));
    }
}

/// The order by sort key is total.
pub proof fn lemma_key_order_total()
    ensures
        total_ordering(|a: Scalar, b: Scalar| key_le(a, b)),
{
    let leq = |a: Scalar, b: Scalar| key_le(a, b);
    assert forall|x: Scalar, y: Scalar| #[trigger] leq(x, y) && #[trigger] leq(y, x) implies x == y by {
        assert(x.sort_key() == y.sort_key());
    }
}

/// An ascending arrangement of the samples is the sorted one.
pub proof fn lemma_ascending_is_sorted(s: Seq<Scalar>, r: Seq<Scalar>)
    requires
        ascending(r),
        r.to_multiset() == s.to_multiset(),
    ensures
        r == sorted(s),
{
    let leq = |a: Scalar, b: Scalar| key_le(a, b);
    lemma_key_order_total();
    s.lemma_sort_by_ensures(leq);
    assert(sorted_by(r, leq));
    lemma_sorted_unique(r, s.sort_by(leq), leq);
}

/// Merges two ascending runs into one.
fn merge(left: &Vec<Scalar>, right: &Vec<Scalar>) -> (r: Vec<Scalar>)
    requires
        ascending(left@),
        ascending(right@),
    ensures
        ascending(r@),
        r@.to_multiset() == left@.to_multiset().add(right@.to_multiset()),
{
    let mut out: Vec<Scalar> = Vec::new();
    let mut i: usize = 0;
    let mut j: usize = 0;
    proof {
        assert(left@.take(0) =~= Seq::<Scalar>::empty());
        assert(right@.take(0) =~= Seq::<Scalar>::empty());
        assert(out@.to_multiset() =~= left@.take(0).to_multiset().add(right@.take(0).to_multiset())) by {
            broadcast use vstd::seq_lib::group_to_multiset_ensures;

        }
    }
    while i < left.len() || j < right.len()
        invariant
            i <= left.len(),
            j <= right.len(),
            ascending(left@),
            ascending(right@),
            ascending(out@),
            out@.to_multiset() == left@.take(i as int).to_multiset().add(right@.take(j as int).to_multiset()),
            forall|k: int, a: int|
                0 <= k < out@.len() && i <= a < left@.len() ==> out@[k].sort_key() <= left@[a].sort_key(),
            forall|k: int, b: int|
                0 <= k < out@.len() && j <= b < right@.len() ==> out@[k].sort_key() <= right@[b].sort_key(),
        decreases left.len() - i + right.len() - j,
    {
        let take_left = if i == left.len() {
            false
        } else if j == right.len() {
            true
        } else {
            left[i].sort_key() <= right[j].sort_key()
        };
        if take_left {
            proof {
                assert(left@.take(i + 1) =~= left@.take(i as int).push(left@[i as int]));
                broadcast use vstd::seq_lib::group_to_multiset_ensures;

                assert(out@.push(left@[i as int]).to_multiset() =~= left@.take(i + 1).to_multiset().add(
                    right@.take(j as int).to_multiset(),
                ));
            }
            out.push(left[i]);
            i += 1;
        } else {
            proof {
                assert(right@.take(j + 1) =~= right@.take(j as int).push(right@[j as int]));
                broadcast use vstd::seq_lib::group_to_multiset_ensures;

                assert(out@.push(right@[j as int]).to_multiset() =~= left@.take(i as int).to_multiset().add(
                    right@.take(j + 1).to_multiset(),
                ));
            }
            out.push(right[j]);
            j += 1;
        }
    }
    proof {
        assert(left@.take(left.len() as int) =~= left@);
        assert(right@.take(right.len() as int) =~= right@);
    }
    out
}

/// Sorts the samples from `lo` up to `hi` by merging sorted halves.
fn sort_range(v: &Vec<Scalar>, lo: usize, hi: usize) -> (r: Vec<Scalar>)
    requires
        lo <= hi <= v.len(),
    ensures
        ascending(r@),
        r@.to_multiset() == v@.subrange(lo as int, hi as int).to_multiset(),
    decreases hi - lo,
{
    if hi - lo <= 1 {
        let mut out: Vec<Scalar> = Vec::new();
        if hi - lo == 1 {
            out.push(v[lo]);
        }
        proof {
            assert(out@ =~= v@.subrange(lo as int, hi as int));
        }
        return out;
    }
    let mid = lo + (hi - lo) / 2;
    let left = sort_range(v, lo, mid);
    let right = sort_range(v, mid, hi);
    proof {
        assert(v@.subrange(lo as int, hi as int) =~= v@.subrange(lo as int, mid as int) + v@.subrange(
            mid as int,
            hi as int,
        ));
        lemma_multiset_commutative(v@.subrange(lo as int, mid as int), v@.subrange(mid as int, hi as int));
    }
    merge(&left, &right)
}

/// Sorts the samples in ascending order.
pub fn sort_samples(v: &Vec<Scalar>) -> (r: Vec<Scalar>)
    ensures
        r@ == sorted(v@),
{
    let out = sort_range(v, 0, v.len());
    proof {
        assert(v@.subrange(0, v.len() as int) =~= v@);
        lemma_ascending_is_sorted(v@, out@);
    }
    out
}

/// The middle of `n` sorted samples: the places from `n/2 - n/10` up to
/// `n/2 + n/10`, both included.
pub open spec fn middle_window(s: Seq<Scalar>) -> Seq<Scalar> {
    let n = s.len() as int;
    s.subrange(n / 2 - n / 10, n / 2 + n / 10 + 1)
}

/// The middle of `n` samples holds `2 * (n / 10) + 1` of them, where there is
/// a sample at all.
pub proof fn lemma_middle_window_len(s: Seq<Scalar>)
    requires
        s.len() > 0,
    ensures
        middle_window(s).len() == 2 * (s.len() as int / 10) + 1,
        0 <= s.len() as int / 2 - s.len() as int / 10,
        s.len() as int / 2 + s.len() as int / 10 < s.len(),
{
}

/// What the deviation filter makes of the samples: 0 of none, the sample
/// itself of one, and otherwise the mean of the middle of the sorted samples.
pub open spec fn deviation_mean(unit: spec_fn(Op) -> Scalar, v: Seq<Scalar>) -> Scalar {
    if v.len() == 0 {
        Scalar::from_bits(ZERO_BITS)
    } else if v.len() == 1 {
        v[0]
    } else {
        mean(unit, middle_window(sorted(v)))
    }
}

/// Consolidates the samples by the mean of the middle of their sorted order.
pub fn beam_deviation_filter<F: Fn(Op) -> Scalar>(v: &Vec<Scalar>, unit: &Arithmetic<F>) -> (r: Scalar)
    ensures
        r == deviation_mean(unit.answers(), v@),
{
    if v.len() == 0 {
        return Scalar::from_bits(ZERO_BITS);
    }
    if v.len() == 1 {
        return v[0];
    }
    let working_v = sort_samples(v);
    proof {
        lemma_sorted_is_ascending(v@);
    }
    let n = working_v.len();
    let v_dev = n / 10;
    let mid = n / 2;
    let start = mid - v_dev;
    let end = mid + v_dev;
    let mut best_fit: Vec<Scalar> = Vec::new();
    let mut i: usize = start;
    while i <= end
        invariant
            start <= i <= end + 1,
            end < n,
            n == working_v.len(),
            best_fit@ == working_v@.subrange(start as int, i as int),
        decreases end + 1 - i,
    {
        best_fit.push(working_v[i]);
        proof {
            assert(working_v@.subrange(start as int, i + 1) =~= working_v@.subrange(start as int, i as int).push(
                working_v@[i as int],
            ));
        }
        i += 1;
    }
    mean_of(&best_fit, unit)
}

/// The deviation filter makes the same of the same samples, in whatever order
/// they come.
pub proof fn lemma_deviation_mean_ignores_order(unit: spec_fn(Op) -> Scalar, a: Seq<Scalar>, b: Seq<Scalar>)
    requires
        a.to_multiset() == b.to_multiset(),
    ensures
        deviation_mean(unit, a) == deviation_mean(unit, b),
{
    a.to_multiset_ensures();
    b.to_multiset_ensures();
    assert(a.len() == b.len());
    if a.len() == 1 {
        assert(a.to_multiset().contains(a[0]));
        assert(b.contains(a[0]));
    } else if a.len() > 1 {
        let leq = |x: Scalar, y: Scalar| key_le(x, y);
        lemma_key_order_total();
        a.lemma_sort_by_ensures(leq);
        b.lemma_sort_by_ensures(leq);
        lemma_sorted_unique(a.sort_by(leq), b.sort_by(leq), leq);
    }
}

} // verus!
