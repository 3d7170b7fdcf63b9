//! Arithmetic on occupancy histograms: totals, normalisation and the distance
//! between two histograms.

use crate::ratio::Ratio;
use crate::ratio::Threshold;
use vstd::prelude::*;

verus! {

/// The sum of all counts.
pub open spec fn total(counts: Seq<u64>) -> nat
    decreases counts.len(),
{
    if counts.len() == 0 {
        0
    } else {
        total(counts.drop_last()) + counts.last() as nat
    }
}

/// The sum of all counts, with 1 in place of a sum of zero, so that it can
/// always serve as a denominator.
pub open spec fn safe_total(counts: Seq<u64>) -> nat {
    if total(counts) == 0 {
        1
    } else {
        total(counts)
    }
}

/// A sum of `n` counts is at most `n` times the largest 64-bit value.
pub proof fn lemma_total_bound(counts: Seq<u64>)
    ensures
        total(counts) <= counts.len() * u64::MAX,
    decreases counts.len(),
{
    if counts.len() > 0 {
        lemma_total_bound(counts.drop_last());
        assert((counts.len() - 1) * u64::MAX + u64::MAX == counts.len() * u64::MAX)
            by (nonlinear_arith);
    }
}

/// Returns the sum of `input`, or 1 where that sum is zero.
pub fn get_sum(input: &Vec<u64>) -> (sum: u128)
    ensures
        sum == safe_total(input@),
{
    let mut sum: u128 = 0;
    let mut index: usize = 0;
    while index < input.len()
        invariant
            index <= input.len(),
            sum == total(input@.take(index as int)),
        decreases input.len() - index,
    {
        proof {
            let next = input@.take(index + 1);
            assert(next.drop_last() =~= input@.take(index as int));
            lemma_total_bound(next);
            assert(next.len() * u64::MAX <= u128::MAX) by (nonlinear_arith)
                requires
                    next.len() <= u64::MAX,
            ;
        }
        sum = sum + input[index] as u128;
        index = index + 1;
    }
    assert(input@.take(index as int) =~= input@);
    if sum == 0 {
        return 1;
    }
    sum
}

/// Returns a fresh vector with the same counts as `input`.
pub fn copy_vector(input: &Vec<u64>) -> (output: Vec<u64>)
    ensures
        output@ == input@,
{
    let mut output: Vec<u64> = Vec::new();
    let mut index: usize = 0;
    while index < input.len()
        invariant
            index <= input.len(),
            output@ == input@.take(index as int),
        decreases input.len() - index,
    {
        output.push(input[index]);
        index = index + 1;
        assert(output@ =~= input@.take(index as int));
    }
    assert(input@.take(index as int) =~= input@);
    output
}

/// No single count exceeds the sum of all of them.
pub proof fn lemma_count_within_total(counts: Seq<u64>, i: int)
    requires
        0 <= i < counts.len(),
    ensures
        counts[i] <= total(counts),
        counts[i] <= safe_total(counts),
    decreases counts.len(),
{
    if i < counts.len() - 1 {
        lemma_count_within_total(counts.drop_last(), i);
    }
}

/// A sequence of zeros sums to zero, and only such a sequence does.
pub proof fn lemma_total_zero(counts: Seq<u64>)
    ensures
        total(counts) == 0 <==> (forall|i: int| 0 <= i < counts.len() ==> counts[i] == 0),
    decreases counts.len(),
{
    if counts.len() > 0 {
        let front = counts.drop_last();
        lemma_total_zero(front);
        if total(counts) == 0 {
            assert forall|i: int| 0 <= i < counts.len() implies counts[i] == 0 by {
                if i < counts.len() - 1 {
                    assert(front[i] == counts[i]);
                }
            }
        } else if total(front) != 0 {
            let i = choose|i: int| 0 <= i < front.len() && front[i] != 0;
            assert(counts[i] == front[i]);
        }
    }
}

/// Splits each count by the (safe) sum of all counts: entry `i` of the result
/// is the exact fraction `inp[i] / safe_total(inp)`. Counts that are all zero
/// give fractions that are all zero.
pub fn get_distribution(inp: &Vec<u64>) -> (result: Vec<Ratio>)
    ensures
        result.len() == inp.len(),
        forall|i: int|
            0 <= i < inp.len() ==> (#[trigger] result[i]).num == inp[i] && result[i].den
                == safe_total(inp@) && result[i].num <= result[i].den,
        (forall|i: int| 0 <= i < inp.len() ==> inp[i] == 0) ==> (forall|i: int|
            0 <= i < result.len() ==> #[trigger] result[i] == (Ratio { num: 0, den: 1 })),
{
    let sum: u128 = get_sum(inp);
    let leng: usize = inp.len();
    let mut index: usize = 0;
    let mut result: Vec<Ratio> = Vec::new();
    while index < leng
        invariant
            leng == inp.len(),
            index <= leng,
            result.len() == index,
            sum == safe_total(inp@),
            forall|i: int|
                0 <= i < index ==> (#[trigger] result[i]).num == inp[i] && result[i].den == sum
                    && result[i].num <= result[i].den,
        decreases leng - index,
    {
        proof {
            lemma_count_within_total(inp@, index as int);
        }
        result.push(Ratio { num: inp[index] as u128, den: sum });
        index = index + 1;
    }
    proof {
        lemma_total_zero(inp@);
    }
    result
}

/// The distance that entry `x` of one histogram and entry `y` of another
/// contribute, over the common denominator of the two: `|x/x_total - y/y_total|`
/// times `x_total * y_total`.
pub open spec fn gap(x: u64, x_total: nat, y: u64, y_total: nat) -> nat {
    if x * y_total >= y * x_total {
        (x * y_total - y * x_total) as nat
    } else {
        (y * x_total - x * y_total) as nat
    }
}

/// The sum of `gap` over the first `upto` positions of `a` and `b`.
pub open spec fn gap_sum(a: Seq<u64>, b: Seq<u64>, upto: int) -> nat
    decreases upto,
{
    if upto <= 0 {
        0
    } else {
        gap_sum(a, b, upto - 1) + gap(a[upto - 1], safe_total(a), b[upto - 1], safe_total(b))
    }
}

/// How many positions the distance looks at: all but the last.
pub open spec fn compared(a: Seq<u64>) -> int {
    if a.len() == 0 {
        0
    } else {
        a.len() - 1
    }
}

/// Numerator of the distance between the normalised `a` and `b`.
pub open spec fn distance_num(a: Seq<u64>, b: Seq<u64>) -> nat {
    gap_sum(a, b, compared(a))
}

/// Denominator of the distance between the normalised `a` and `b`.
pub open spec fn distance_den(a: Seq<u64>, b: Seq<u64>) -> nat {
    safe_total(a) * safe_total(b)
}

/// `gap_sum` only grows with the number of positions summed.
pub proof fn lemma_gap_sum_grows(a: Seq<u64>, b: Seq<u64>, i: int, j: int)
    requires
        i <= j,
    ensures
        gap_sum(a, b, i) <= gap_sum(a, b, j),
    decreases j - i,
{
    if i < j {
        lemma_gap_sum_grows(a, b, i, j - 1);
    }
}

/// The sum of the absolute differences between the normalised `a` and the
/// normalised `b`, over every position but the last, as the exact fraction
/// `distance_num / distance_den`. `None` exactly when that fraction does not
/// fit in a `Ratio`.
pub fn get_distribution_difference(a: &Vec<u64>, b: &Vec<u64>) -> (distance: Option<Ratio>)
    requires
        a.len() == b.len(),
    ensures
        distance is Some <==> distance_num(a@, b@) <= u128::MAX && distance_den(a@, b@)
            <= u128::MAX,
        distance matches Some(d) ==> d.num == distance_num(a@, b@) && d.den == distance_den(
            a@,
            b@,
        ),
{
    let a_sum: u128 = get_sum(a);
    let b_sum: u128 = get_sum(b);
    let den: u128 = match a_sum.checked_mul(b_sum) {
        Some(d) => d,
        None => {
            return None;
        },
    };
    let leng: usize = a.len();
    if leng == 0 {
        return Some(Ratio { num: 0, den });
    }
    let mut sum: u128 = 0;
    let mut index: usize = 0;
    while index < leng - 1
        invariant
            leng == a.len(),
            leng == b.len(),
            leng > 0,
            index <= leng - 1,
            a_sum == safe_total(a@),
            b_sum == safe_total(b@),
            den == a_sum * b_sum,
            sum == gap_sum(a@, b@, index as int),
        decreases leng - index,
    {
        let x: u128 = a[index] as u128;
        let y: u128 = b[index] as u128;
        proof {
            lemma_count_within_total(a@, index as int);
            lemma_count_within_total(b@, index as int);
            assert(x * b_sum <= a_sum * b_sum) by (nonlinear_arith)
                requires
                    x <= a_sum,
            ;
            assert(y * a_sum <= a_sum * b_sum) by (nonlinear_arith)
                requires
                    y <= b_sum,
            ;
        }
        let left: u128 = x * b_sum;
        let right: u128 = y * a_sum;
        let diff: u128 = if left >= right {
            left - right
        } else {
            right - left
        };
        match sum.checked_add(diff) {
            Some(s) => {
                sum = s;
            },
            None => {
                proof {
                    lemma_gap_sum_grows(a@, b@, index + 1, compared(a@));
                }
                return None;
            },
        }
        index = index + 1;
    }
    Some(Ratio { num: sum, den })
}

/// A histogram is at distance zero from itself.
pub proof fn lemma_distance_to_self(x: Seq<u64>)
    ensures
        distance_num(x, x) == 0,
{
    lemma_gap_sum_to_self(x, compared(x));
}

proof fn lemma_gap_sum_to_self(x: Seq<u64>, upto: int)
    ensures
        gap_sum(x, x, upto) == 0,
    decreases upto,
{
    if upto > 0 {
        lemma_gap_sum_to_self(x, upto - 1);
    }
}

/// The distance does not depend on the order of its two arguments.
pub proof fn lemma_distance_symmetric(a: Seq<u64>, b: Seq<u64>)
    requires
        a.len() == b.len(),
    ensures
        distance_num(a, b) == distance_num(b, a),
        distance_den(a, b) == distance_den(b, a),
{
    lemma_gap_sum_symmetric(a, b, compared(a));
    assert(safe_total(a) * safe_total(b) == safe_total(b) * safe_total(a)) by (nonlinear_arith);
}

proof fn lemma_gap_sum_symmetric(a: Seq<u64>, b: Seq<u64>, upto: int)
    ensures
        gap_sum(a, b, upto) == gap_sum(b, a, upto),
    decreases upto,
{
    if upto > 0 {
        lemma_gap_sum_symmetric(a, b, upto - 1);
    }
}

/// What one count adds to the over-allocation area: the count's excess over
/// `fcs`, weighted by the count itself.
pub open spec fn excess_term(x: u64, fcs: u64) -> nat {
    if x > fcs {
        ((x - fcs) * x) as nat
    } else {
        0
    }
}

/// The sum of `excess_term` over all counts.
pub open spec fn excess_area(counts: Seq<u64>, fcs: u64) -> nat
    decreases counts.len(),
{
    if counts.len() == 0 {
        0
    } else {
        excess_area(counts.drop_last(), fcs) + excess_term(counts.last(), fcs)
    }
}

/// `excess_area` of a prefix only grows with the prefix.
pub proof fn lemma_excess_area_grows(counts: Seq<u64>, fcs: u64, i: int, j: int)
    requires
        0 <= i <= j <= counts.len(),
    ensures
        excess_area(counts.take(i), fcs) <= excess_area(counts.take(j), fcs),
    decreases j - i,
{
    if i < j {
        lemma_excess_area_grows(counts, fcs, i, j - 1);
        assert(counts.take(j).drop_last() =~= counts.take(j - 1));
    }
}

/// The over-allocation area of `input` against the fixed size `fcs`: each count
/// above `fcs` adds its excess times its own share of the total. The result is
/// the exact fraction `excess_area / safe_total`; `None` exactly when the
/// numerator does not fit in 128 bits. `length` is the number of buckets the
/// caller laid out, which must cover `input`.
pub fn get_overalloc_area(input: Vec<u64>, fcs: u64, length: usize) -> (area: Option<Ratio>)
    requires
        input.len() <= length,
    ensures
        area is Some <==> excess_area(input@, fcs) <= u128::MAX,
        area matches Some(r) ==> r.num == excess_area(input@, fcs) && r.den == safe_total(
            input@,
        ),
{
    let sum: u128 = get_sum(&input);
    let mut index: usize = 0;
    let mut result: u128 = 0;
    while index < input.len()
        invariant
            index <= input.len(),
            result == excess_area(input@.take(index as int), fcs),
        decreases input.len() - index,
    {
        let x: u64 = input[index];
        let mut term: u128 = 0;
        if x > fcs {
            assert((x - fcs) * x <= u128::MAX) by (nonlinear_arith)
                requires
                    x > fcs,
                    x <= u64::MAX,
            ;
            term = (x - fcs) as u128 * (x as u128);
        }
        proof {
            assert(input@.take(index + 1).drop_last() =~= input@.take(index as int));
            assert(input@.take(input.len() as int) =~= input@);
            lemma_excess_area_grows(input@, fcs, index + 1, input.len() as int);
        }
        match result.checked_add(term) {
            Some(r) => {
                result = r;
            },
            None => {
                return None;
            },
        }
        index = index + 1;
    }
    assert(input@.take(index as int) =~= input@);
    Some(Ratio { num: result, den: sum })
}

/// Whether the distance between the normalised `a` and `b` is less than
/// `delta`.
pub open spec fn closer_than(a: Seq<u64>, b: Seq<u64>, delta: Threshold) -> bool {
    distance_num(a, b) * delta.den < delta.num * distance_den(a, b)
}

/// Whether the distance between `a` and `b` and its comparison with `delta`
/// can be worked out in 128 bits.
pub open spec fn decidable(a: Seq<u64>, b: Seq<u64>, delta: Threshold) -> bool {
    &&& distance_den(a, b) <= u128::MAX
    &&& distance_num(a, b) <= u128::MAX
    &&& distance_num(a, b) * delta.den <= u128::MAX
    &&& delta.num * distance_den(a, b) <= u128::MAX
}

/// Decides whether two successive snapshots of a histogram are closer than
/// `delta`. `None` exactly when the numbers involved do not fit in 128 bits.
pub fn has_settled(previous: &Vec<u64>, current: &Vec<u64>, delta: &Threshold) -> (verdict:
    Option<bool>)
    requires
        previous.len() == current.len(),
    ensures
        verdict is Some <==> decidable(previous@, current@, *delta),
        verdict matches Some(settled) ==> settled == closer_than(previous@, current@, *delta),
{
    match get_distribution_difference(previous, current) {
        Some(distance) => distance.is_below(delta),
        None => None,
    }
}

/// The sum of a prefix is at most the sum of the whole.
pub proof fn lemma_total_of_prefix(counts: Seq<u64>, n: int)
    requires
        0 <= n <= counts.len(),
    ensures
        total(counts.take(n)) <= total(counts),
    decreases counts.len() - n,
{
    if n < counts.len() {
        lemma_total_of_prefix(counts, n + 1);
        assert(counts.take(n + 1).drop_last() =~= counts.take(n));
    } else {
        assert(counts.take(n) =~= counts);
    }
}

proof fn lemma_gap_sum_bound(a: Seq<u64>, b: Seq<u64>, upto: int)
    requires
        0 <= upto <= a.len(),
        a.len() == b.len(),
    ensures
        gap_sum(a, b, upto) <= total(a.take(upto)) * safe_total(b) + total(b.take(upto))
            * safe_total(a),
    decreases upto,
{
    if upto > 0 {
        lemma_gap_sum_bound(a, b, upto - 1);
        assert(a.take(upto).drop_last() =~= a.take(upto - 1));
        assert(b.take(upto).drop_last() =~= b.take(upto - 1));
        let x = a[upto - 1] as int;
        let y = b[upto - 1] as int;
        let ta = total(a.take(upto - 1)) as int;
        let tb = total(b.take(upto - 1)) as int;
        let sa = safe_total(a) as int;
        let sb = safe_total(b) as int;
        assert((ta + x) * sb + (tb + y) * sa == ta * sb + tb * sa + x * sb + y * sa)
            by (nonlinear_arith);
        assert(0 <= x * sb && 0 <= y * sa) by (nonlinear_arith)
            requires
                0 <= x,
                0 <= y,
                0 <= sa,
                0 <= sb,
        ;
    }
}

/// The numerator of the distance is at most twice its denominator: the
/// distance between two normalised histograms never exceeds 2.
pub proof fn lemma_distance_bound(a: Seq<u64>, b: Seq<u64>)
    requires
        a.len() == b.len(),
    ensures
        distance_num(a, b) <= 2 * distance_den(a, b),
{
    let n = compared(a);
    lemma_gap_sum_bound(a, b, n);
    lemma_total_of_prefix(a, n);
    lemma_total_of_prefix(b, n);
    let pa = total(a.take(n)) as int;
    let pb = total(b.take(n)) as int;
    let sa = safe_total(a) as int;
    let sb = safe_total(b) as int;
    assert(pa * sb + pb * sa <= 2 * (sa * sb)) by (nonlinear_arith)
        requires
            0 <= pa <= sa,
            0 <= pb <= sb,
    ;
}

/// Raising one count by 1 raises the sum by 1.
pub proof fn lemma_total_of_raised(counts: Seq<u64>, i: int)
    requires
        0 <= i < counts.len(),
        counts[i] < u64::MAX,
    ensures
        total(counts.update(i, (counts[i] + 1) as u64)) == total(counts) + 1,
    decreases counts.len(),
{
    let raised = counts.update(i, (counts[i] + 1) as u64);
    if i < counts.len() - 1 {
        lemma_total_of_raised(counts.drop_last(), i);
        assert(raised.drop_last() =~= counts.drop_last().update(i, (counts[i] + 1) as u64));
    } else {
        assert(raised.drop_last() =~= counts.drop_last());
    }
}

} // verus!
