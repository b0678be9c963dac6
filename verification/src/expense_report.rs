//! The expense-report search: among all k-element combinations of the
//! report's entries, find the single one that sums to 2020 and return the
//! product of its entries.

use vstd::prelude::*;
use vstd::math::abs;
use itertools::Itertools;

verus! {

/// The failures of the search: no single combination sums to 2020, or the
/// product of the one that does falls outside `i32`.
#[derive(Debug, PartialEq, Eq, Structural, Clone, Copy)]
pub enum Day01Error {
    NoUniqueCombination,
    ProductOverflow,
}

pub open spec fn seq_sum(s: Seq<i32>) -> int
    decreases s.len(),
{
    if s.len() == 0 {
        0
    } else {
        seq_sum(s.drop_last()) + s.last()
    }
}

pub open spec fn seq_prod(s: Seq<i32>) -> int
    decreases s.len(),
{
    if s.len() == 0 {
        1
    } else {
        seq_prod(s.drop_last()) * s.last()
    }
}

/// The combinations that sum to 2020.
pub open spec fn sum2020_matches(cs: Seq<Seq<i32>>) -> Seq<Seq<i32>> {
    cs.filter(|c: Seq<i32>| seq_sum(c) == 2020)
}

/// Everything the search promises of a result `r` computed over the
/// candidate combinations `cs`: the unique-match error comes exactly when
/// the number of combinations summing to 2020 is not one, the overflow
/// error exactly when the product of the single match falls outside `i32`,
/// and otherwise the result is that product.
pub open spec fn day01_post(cs: Seq<Seq<i32>>, r: Result<i32, Day01Error>) -> bool {
    let m = sum2020_matches(cs);
    &&& (m.len() != 1 <==> r == Err::<i32, Day01Error>(Day01Error::NoUniqueCombination))
    &&& (m.len() == 1 ==> {
        &&& (r matches Ok(v) ==> v as int == seq_prod(m[0]))
        &&& (r is Ok <==> i32::MIN <= seq_prod(m[0]) <= i32::MAX)
    })
}

/// What the `k`-length combinations of `s` are is left to the outside
/// iterator adaptor that produces them; it is deterministic, so the result
/// is a function of the report and `k` alone.
pub uninterp spec fn combinations_of(s: Seq<i32>, k: nat) -> Seq<Seq<i32>>;

/// Relies on itertools' `combinations`: a deterministic iterator over the
/// `k`-length combinations of the elements, each cloned from the input.
#[verifier::external_body]
fn combinations_vec(v: &Vec<i32>, k: usize) -> (r: Vec<Vec<i32>>)
    ensures
        r@.map_values(|c: Vec<i32>| c@) == combinations_of(v@, k as nat),
        forall|i: int| 0 <= i < r@.len() ==> (#[trigger] r@[i])@.len() == k,
        forall|i: int, j: int|
            0 <= i < r@.len() && 0 <= j < r@[i]@.len() ==> v@.contains(#[trigger] r@[i]@[j]),
{
    v.iter().combinations(k).map(|c| c.into_iter().copied().collect()).collect()
}

proof fn lemma_mul_magnitude(p: int, x: int)
    requires
        x != 0,
    ensures
        abs(p * x) >= abs(p),
{
    if x >= 1 {
        if p >= 0 {
            assert(p * x >= p) by (nonlinear_arith)
                requires
                    x >= 1 && p >= 0,
            ;
            assert(p * x >= 0) by (nonlinear_arith)
                requires
                    x >= 1 && p >= 0,
            ;
        } else {
            assert(p * x <= p) by (nonlinear_arith)
                requires
                    x >= 1 && p < 0,
            ;
        }
    } else {
        if p >= 0 {
            assert(p * x <= -p) by (nonlinear_arith)
                requires
                    x <= -1 && p >= 0,
            ;
        } else {
            assert(p * x >= -p) by (nonlinear_arith)
                requires
                    x <= -1 && p < 0,
            ;
            assert(-p >= 0);
        }
    }
}

proof fn lemma_prod_zero(s: Seq<i32>, z: int)
    requires
        0 <= z < s.len(),
        s[z] == 0,
    ensures
        seq_prod(s) == 0,
    decreases s.len(),
{
    if z == s.len() - 1 {
        assert(s.last() == 0);
        assert(seq_prod(s) == seq_prod(s.drop_last()) * 0);
    } else {
        lemma_prod_zero(s.drop_last(), z);
        assert(seq_prod(s) == 0 * s.last());
    }
}

proof fn lemma_mul_bounds(a: int, b: int, m: int)
    requires
        m >= 0,
        -m <= a <= m,
        -m <= b <= m,
    ensures
        -(m * m) <= a * b <= m * m,
{
    assert(-(m * m) <= a * b <= m * m) by (nonlinear_arith)
        requires
            m >= 0 && -m <= a <= m && -m <= b <= m,
    ;
}

proof fn lemma_prod_magnitude(s: Seq<i32>, i: int)
    requires
        0 <= i <= s.len(),
        forall|j: int| 0 <= j < s.len() ==> s[j] != 0,
    ensures
        abs(seq_prod(s)) >= abs(seq_prod(s.take(i))),
    decreases s.len() - i,
{
    if i == s.len() {
        assert(s.take(i) =~= s);
    } else {
        lemma_prod_magnitude(s, i + 1);
        assert(s.take(i + 1).drop_last() =~= s.take(i));
        assert(s.take(i + 1).last() == s[i]);
        lemma_mul_magnitude(seq_prod(s.take(i)), s[i] as int);
    }
}

/// The product of the entries, or `None` when it falls outside `i32`.
fn checked_product(xs: &Vec<i32>) -> (r: Option<i32>)
    ensures
        r matches Some(v) ==> v as int == seq_prod(xs@),
        r is Some <==> i32::MIN <= seq_prod(xs@) <= i32::MAX,
{
    let n = xs.len();
    let mut i: usize = 0;
    while i < n
        invariant
            0 <= i <= n == xs@.len(),
            forall|j: int| 0 <= j < i ==> xs@[j] != 0,
        decreases n - i,
    {
        if xs[i] == 0 {
            proof {
                lemma_prod_zero(xs@, i as int);
            }
            return Some(0);
        }
        i = i + 1;
    }
    let mut acc: i128 = 1;
    let mut k: usize = 0;
    while k < n
        invariant
            0 <= k <= n == xs@.len(),
            forall|j: int| 0 <= j < n ==> xs@[j] != 0,
            acc as int == seq_prod(xs@.take(k as int)),
            -0x8000_0000 <= acc <= 0x8000_0000,
        decreases n - k,
    {
        proof {
            assert(xs@.take(k + 1).drop_last() =~= xs@.take(k as int));
            assert(xs@.take(k + 1).last() == xs@[k as int]);
            lemma_mul_bounds(acc as int, xs@[k as int] as int, 0x8000_0000);
        }
        acc = acc * (xs[k] as i128);
        if acc > 0x8000_0000i128 || acc < -0x8000_0000i128 {
            proof {
                lemma_prod_magnitude(xs@, k + 1);
                assert(xs@.take(n as int) =~= xs@);
            }
            return None;
        }
        k = k + 1;
    }
    proof {
        assert(xs@.take(n as int) =~= xs@);
    }
    if acc > (i32::MAX as i128) {
        return None;
    }
    Some(acc as i32)
}

fn sum_of(xs: &Vec<i32>) -> (r: i128)
    ensures
        r as int == seq_sum(xs@),
{
    let n = xs.len();
    let mut acc: i128 = 0;
    let mut i: usize = 0;
    while i < n
        invariant
            0 <= i <= n == xs@.len(),
            acc as int == seq_sum(xs@.take(i as int)),
            -0x8000_0000 * (i as int) <= acc as int <= 0x7fff_ffff * (i as int),
        decreases n - i,
    {
        proof {
            assert(xs@.take(i + 1).drop_last() =~= xs@.take(i as int));
            assert(xs@.take(i + 1).last() == xs@[i as int]);
        }
        acc = acc + (xs[i] as i128);
        i = i + 1;
    }
    proof {
        assert(xs@.take(n as int) =~= xs@);
    }
    acc
}

/// The product of the single candidate combination that sums to 2020, over
/// an explicit list of candidates.
pub fn day01_from_combinations(combs: &Vec<Vec<i32>>) -> (r: Result<i32, Day01Error>)
    ensures
        day01_post(combs@.map_values(|c: Vec<i32>| c@), r),
{
    let ghost cs = combs@.map_values(|c: Vec<i32>| c@);
    let n = combs.len();
    let mut found: usize = 0;
    let mut nmatch: usize = 0;
    let mut i: usize = 0;
    proof {
        reveal(Seq::filter);
        assert(cs.take(0) =~= Seq::<Seq<i32>>::empty());
    }
    while i < n
        invariant
            0 <= i <= n == cs.len(),
            cs == combs@.map_values(|c: Vec<i32>| c@),
            nmatch == sum2020_matches(cs.take(i as int)).len(),
            nmatch >= 1 ==> found < i && seq_sum(cs[found as int]) == 2020 && sum2020_matches(
                cs.take(i as int),
            )[0] == cs[found as int],
        decreases n - i,
    {
        let s = sum_of(&combs[i]);
        proof {
            reveal(Seq::filter);
            assert(cs.take(i + 1).drop_last() =~= cs.take(i as int));
            assert(cs.take(i + 1).last() == cs[i as int]);
            assert(cs[i as int] == combs@[i as int]@);
        }
        if s == 2020 {
            if nmatch == 0 {
                found = i;
            }
            nmatch = nmatch + 1;
        }
        i = i + 1;
    }
    proof {
        assert(cs.take(n as int) =~= cs);
    }
    if nmatch != 1 {
        return Err(Day01Error::NoUniqueCombination);
    }
    match checked_product(&combs[found]) {
        Some(v) => Ok(v),
        None => Err(Day01Error::ProductOverflow),
    }
}

/// The product of the single `n_for_combination`-length combination of the
/// report's entries that sums to 2020.
pub fn day01(input_data: &Vec<i32>, n_for_combination: u32) -> (r: Result<i32, Day01Error>)
    ensures
        day01_post(combinations_of(input_data@, n_for_combination as nat), r),
{
    let combs = combinations_vec(input_data, n_for_combination as usize);
    day01_from_combinations(&combs)
}

} // verus!
