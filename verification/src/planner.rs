//! Partition planner: splits `length` character positions into contiguous,
//! non-overlapping, gap-free inclusive ranges, one per effective worker.

use vstd::prelude::*;

use vstd::arithmetic::div_mod::lemma_fundamental_div_mod;
use vstd::arithmetic::mul::lemma_mul_inequality;
use vstd::arithmetic::mul::lemma_mul_is_distributive_add_other_way;

verus! {

/// How many ranges the planner produces: one per requested worker (a
/// request of zero counts as one), but never more than there are
/// characters, so no range is empty.
pub open spec fn eff_threads(length: nat, threads: nat) -> nat {
    let t: nat = if threads == 0 {
        1
    } else {
        threads
    };
    if length == 0 {
        0
    } else if t <= length {
        t
    } else {
        length
    }
}

/// The size of the `i`-th planned range: the first `eff - rem` ranges get
/// the base chunk `length / eff`, the trailing `rem = length % eff` ranges
/// get one character more.
pub open spec fn plan_size(length: nat, threads: nat, i: int) -> nat {
    let te = eff_threads(length, threads);
    let chunk = length / te;
    let rem = length % te;
    if i < te - rem {
        chunk
    } else {
        chunk + 1
    }
}

/// Number of character positions an inclusive range covers.
pub open spec fn range_size(e: (usize, usize)) -> int {
    e.1 + 1 - e.0
}

/// Total number of character positions a list of ranges covers.
pub open spec fn ranges_size_total(s: Seq<(usize, usize)>) -> int
    decreases s.len(),
{
    if s.len() == 0 {
        0
    } else {
        ranges_size_total(s.drop_last()) + range_size(s.last())
    }
}

proof fn lemma_ranges_size_total_push(s: Seq<(usize, usize)>, e: (usize, usize))
    ensures
        ranges_size_total(s.push(e)) == ranges_size_total(s) + range_size(e),
{
    assert(s.push(e).drop_last() =~= s);
}

proof fn lemma_ranges_ordered(s: Seq<(usize, usize)>, i: int, j: int)
    requires
        forall|h: int| 0 <= h < s.len() ==> (#[trigger] s[h]).0 <= s[h].1,
        forall|h: int| 0 <= h < s.len() - 1 ==> (#[trigger] s[h]).1 + 1 == s[h + 1].0,
        0 <= i < j < s.len(),
    ensures
        s[i].1 < s[j].0,
    decreases j - i,
{
    if j > i + 1 {
        lemma_ranges_ordered(s, i, j - 1);
    }
}

/// Non-overlap of a contiguous range list: ranges that sit one after the
/// other, each ending right before the next begins, are pairwise disjoint.
pub proof fn lemma_ranges_disjoint(s: Seq<(usize, usize)>)
    requires
        forall|h: int| 0 <= h < s.len() ==> (#[trigger] s[h]).0 <= s[h].1,
        forall|h: int| 0 <= h < s.len() - 1 ==> (#[trigger] s[h]).1 + 1 == s[h + 1].0,
    ensures
        forall|i: int, j: int| 0 <= i < j < s.len() ==> (#[trigger] s[i]).1 < (#[trigger] s[j]).0,
{
    assert forall|i: int, j: int|
        0 <= i < j < s.len() implies (#[trigger] s[i]).1 < (#[trigger] s[j]).0 by {
        lemma_ranges_ordered(s, i, j);
    }
}

/// Plans the ranges for a text of `length` characters over `threads`
/// workers: contiguous from position zero, jointly covering every
/// position exactly once, lighter ranges before heavier ones.
#[verifier::rlimit(60)]
pub fn plan_ranges(length: usize, threads: usize) -> (r: Vec<(usize, usize)>)
    ensures
        r@.len() == eff_threads(length as nat, threads as nat),
        forall|i: int| 0 <= i < r@.len() ==> (#[trigger] r@[i]).0 <= r@[i].1 < length,
        r@.len() > 0 ==> r@[0].0 == 0,
        r@.len() > 0 ==> r@[r@.len() - 1].1 + 1 == length,
        forall|i: int| 0 <= i < r@.len() - 1 ==> (#[trigger] r@[i]).1 + 1 == r@[i + 1].0,
        forall|i: int|
            0 <= i < r@.len() ==> range_size(#[trigger] r@[i]) == plan_size(
                length as nat,
                threads as nat,
                i,
            ),
        ranges_size_total(r@) == length,
{
    let mut r: Vec<(usize, usize)> = Vec::new();
    if length == 0 {
        return r;
    }
    let t = if threads == 0 {
        1
    } else {
        threads
    };
    let te = if t <= length {
        t
    } else {
        length
    };
    let chunk = length / te;
    let rem = length % te;
    let light = te - rem;
    proof {
        lemma_fundamental_div_mod(length as int, te as int);
        assert(length as int == te * chunk + rem);
        assert(chunk >= 1) by (nonlinear_arith)
            requires
                length as int == te * chunk + rem,
                1 <= te <= length,
                0 <= rem < te,
                chunk >= 0,
        ;
        assert(length as int == light * chunk + rem * (chunk + 1)) by {
            lemma_mul_is_distributive_add_other_way(chunk as int, light as int, rem as int);
            assert((light + rem) * chunk == light * chunk + rem * chunk);
            assert(rem * (chunk + 1) == rem * chunk + rem) by (nonlinear_arith);
        }
    }
    let mut from: usize = 0;
    let mut k: usize = 0;
    while k < light
        invariant
            0 <= k <= light,
            te == eff_threads(length as nat, threads as nat),
            chunk == length as nat / te as nat,
            rem == length as nat % te as nat,
            light == te - rem,
            1 <= te <= length,
            chunk >= 1,
            length as int == light * chunk + rem * (chunk + 1),
            from as int == k * chunk,
            r@.len() == k,
            forall|i: int| 0 <= i < r@.len() ==> (#[trigger] r@[i]).0 <= r@[i].1 < length,
            r@.len() > 0 ==> r@[0].0 == 0,
            k > 0 ==> r@[r@.len() - 1].1 + 1 == from,
            forall|i: int| 0 <= i < r@.len() - 1 ==> (#[trigger] r@[i]).1 + 1 == r@[i + 1].0,
            forall|i: int|
                0 <= i < r@.len() ==> range_size(#[trigger] r@[i]) == plan_size(
                    length as nat,
                    threads as nat,
                    i,
                ),
            ranges_size_total(r@) == from,
        decreases light - k,
    {
        proof {
            assert((k + 1) * chunk == k * chunk + chunk) by (nonlinear_arith);
            assert((k + 1) * chunk <= light * chunk) by {
                lemma_mul_inequality(k + 1, light as int, chunk as int);
            }
            assert(rem * (chunk + 1) >= 0) by (nonlinear_arith)
                requires
                    rem >= 0,
                    chunk >= 0,
            ;
        }
        let hi = from + chunk - 1;
        let ghost old_r = r@;
        r.push((from, hi));
        proof {
            lemma_ranges_size_total_push(old_r, (from, hi));
        }
        from = from + chunk;
        k = k + 1;
    }
    let mut j: usize = 0;
    while j < rem
        invariant
            0 <= j <= rem,
            te == eff_threads(length as nat, threads as nat),
            chunk == length as nat / te as nat,
            rem == length as nat % te as nat,
            light == te - rem,
            1 <= te <= length,
            chunk >= 1,
            length as int == light * chunk + rem * (chunk + 1),
            from as int == light * chunk + j * (chunk + 1),
            r@.len() == light + j,
            forall|i: int| 0 <= i < r@.len() ==> (#[trigger] r@[i]).0 <= r@[i].1 < length,
            r@.len() > 0 ==> r@[0].0 == 0,
            r@.len() > 0 ==> r@[r@.len() - 1].1 + 1 == from,
            forall|i: int| 0 <= i < r@.len() - 1 ==> (#[trigger] r@[i]).1 + 1 == r@[i + 1].0,
            forall|i: int|
                0 <= i < r@.len() ==> range_size(#[trigger] r@[i]) == plan_size(
                    length as nat,
                    threads as nat,
                    i,
                ),
            ranges_size_total(r@) == from,
        decreases rem - j,
    {
        proof {
            assert((j + 1) * (chunk + 1) == j * (chunk + 1) + (chunk + 1)) by (nonlinear_arith);
            assert((j + 1) * (chunk + 1) <= rem * (chunk + 1)) by {
                lemma_mul_inequality(j + 1, rem as int, chunk + 1);
            }
        }
        let hi = from + chunk;
        let ghost old_r = r@;
        r.push((from, hi));
        proof {
            lemma_ranges_size_total_push(old_r, (from, hi));
        }
        from = from + chunk + 1;
        j = j + 1;
    }
    proof {
        assert(from == length);
    }
    r
}

} // verus!
