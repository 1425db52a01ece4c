//! Parity statistics of occurrence counts over all permutations of a length.
use vstd::prelude::*;
use rayon::iter::{IntoParallelIterator, ParallelIterator};
use crate::perm::{Perm, factorial, factorial_of, unrank};
use crate::pattern::Pattern;
use crate::search::{occurrences, extensions};

verus! {

pub open spec fn power_of_two(e: nat) -> nat
    decreases e,
{
    if e == 0 {
        1
    } else {
        2 * power_of_two((e - 1) as nat)
    }
}

/// The number of ranks below `k` whose permutation of length `m` holds an
/// even number of occurrences of `p`.
pub open spec fn even_ranks(p: Seq<u8>, m: nat, k: nat) -> nat
    decreases k,
{
    if k == 0 {
        0
    } else {
        even_ranks(p, m, (k - 1) as nat) + if occurrences(p, unrank((k - 1) as nat, m)).len() % 2
            == 0 {
            1nat
        } else {
            0nat
        }
    }
}

/// A search from position `i` finds at most `2^(len - i)` completions.
proof fn lemma_extensions_few(p: Seq<u8>, t: Seq<u8>, prefix: Seq<u8>, i: int)
    requires
        0 <= i <= t.len(),
    ensures
        extensions(p, t, prefix, i).len() <= power_of_two((t.len() - i) as nat),
    decreases t.len() - i,
{
    if prefix.len() < p.len() && i < t.len() {
        let next = prefix.push(i as u8);
        lemma_extensions_few(p, t, prefix, i + 1);
        lemma_extensions_few(p, t, next, i + 1);
    } else if prefix.len() >= p.len() {
        lemma_power_of_two_positive((t.len() - i) as nat);
    }
}

proof fn lemma_power_of_two_positive(e: nat)
    ensures
        power_of_two(e) >= 1,
    decreases e,
{
    if e > 0 {
        lemma_power_of_two_positive((e - 1) as nat);
    }
}

proof fn lemma_power_of_two_below_factorial(e: nat)
    requires
        e >= 4,
    ensures
        power_of_two(e) <= factorial(e),
    decreases e,
{
    if e > 4 {
        lemma_power_of_two_below_factorial((e - 1) as nat);
        assert(2 * factorial((e - 1) as nat) <= e * factorial((e - 1) as nat)) by (nonlinear_arith)
            requires
                e >= 2,
        ;
    } else {
        assert(factorial(0) == 1);
        assert(factorial(1) == 1);
        assert(factorial(2) == 2);
        assert(factorial(3) == 6);
        assert(factorial(4) == 24);
        assert(power_of_two(0) == 1);
        assert(power_of_two(1) == 2);
        assert(power_of_two(2) == 4);
        assert(power_of_two(3) == 8);
        assert(power_of_two(4) == 16);
    }
}

/// Where `m!` fits in a `usize`, so does the number of occurrences of any
/// pattern in any permutation of length `m`.
pub proof fn lemma_occurrence_count_fits(p: Seq<u8>, t: Seq<u8>)
    requires
        factorial(t.len()) <= usize::MAX,
    ensures
        occurrences(p, t).len() <= usize::MAX,
{
    lemma_extensions_few(p, t, Seq::empty(), 0);
    if t.len() >= 4 {
        lemma_power_of_two_below_factorial(t.len());
    } else {
        assert(power_of_two(0) == 1);
        assert(power_of_two(1) == 2);
        assert(power_of_two(2) == 4);
        assert(power_of_two(3) == 8);
    }
}

/// Of the first `k` ranks, at most `k` are counted as even.
pub proof fn lemma_even_ranks_bounded(p: Seq<u8>, m: nat, k: nat)
    ensures
        even_ranks(p, m, k) <= k,
    decreases k,
{
    if k > 0 {
        lemma_even_ranks_bounded(p, m, (k - 1) as nat);
    }
}

/// Relies on rayon's `into_par_iter`, `filter` and `count` on the range
/// `0..total`: the count is the number of indices that the predicate accepts,
/// however the range is split among workers.
#[verifier::external_body]
fn par_count_even(patt: &Pattern, m: u8, total: usize) -> (r: usize)
    requires
        patt.wf(),
        total == factorial(m as nat),
        factorial(m as nat) <= usize::MAX,
    ensures
        r == even_ranks(patt.perm.data@, m as nat, total as nat),
{
    (0..total).into_par_iter().filter(|&i| patt.has_even_occurrences_at(i, m)).count()
}

impl Pattern {
    /// Whether the permutation of length `m` with rank `index` holds an even
    /// number of occurrences of this pattern.
    pub fn has_even_occurrences_at(&self, index: usize, m: u8) -> (r: bool)
        requires
            self.wf(),
            index < factorial(m as nat),
            factorial(m as nat) <= usize::MAX,
        ensures
            r == (occurrences(self.perm.data@, unrank(index as nat, m as nat)).len() % 2 == 0),
    {
        let target = Perm::unrank_permutation(index, m);
        proof {
            lemma_occurrence_count_fits(self.perm.data@, target.data@);
        }
        self.count_occurrences_in(&target) % 2 == 0
    }

    /// Counts the permutations of length `m` with an even and with an odd
    /// number of occurrences of this pattern, checking the `m!` permutations
    /// in parallel.
    pub fn count_odd_even_occurrences(&self, m: u8) -> (r: (usize, usize))
        requires
            self.wf(),
            factorial(m as nat) <= usize::MAX,
        ensures
            r.0 == even_ranks(self.perm.data@, m as nat, factorial(m as nat)),
            r.0 + r.1 == factorial(m as nat),
    {
        let total = factorial_of(m as usize);
        let even_count = par_count_even(self, m, total);
        proof {
            lemma_even_ranks_bounded(self.perm.data@, m as nat, total as nat);
        }
        (even_count, total - even_count)
    }

    /// The same counts as `count_odd_even_occurrences`, taking the
    /// permutations one rank after another.
    pub fn count_odd_even_occurrences_sequential(&self, m: u8) -> (r: (usize, usize))
        requires
            self.wf(),
            factorial(m as nat) <= usize::MAX,
        ensures
            r.0 == even_ranks(self.perm.data@, m as nat, factorial(m as nat)),
            r.0 + r.1 == factorial(m as nat),
    {
        let total = factorial_of(m as usize);
        let mut even_count: usize = 0;
        let mut index: usize = 0;
        while index < total
            invariant
                self.wf(),
                index <= total,
                total == factorial(m as nat),
                factorial(m as nat) <= usize::MAX,
                even_count == even_ranks(self.perm.data@, m as nat, index as nat),
            decreases total - index,
        {
            proof {
                lemma_even_ranks_bounded(self.perm.data@, m as nat, index as nat);
            }
            if self.has_even_occurrences_at(index, m) {
                even_count += 1;
            }
            index += 1;
        }
        proof {
            lemma_even_ranks_bounded(self.perm.data@, m as nat, total as nat);
        }
        (even_count, total - even_count)
    }
}

/// Every permutation of length `m` is counted once, as even or as odd: the
/// even count never exceeds `m!`, and the odd count is the rest.
pub proof fn lemma_parity_counts_cover_all(p: Seq<u8>, m: nat)
    ensures
        even_ranks(p, m, factorial(m)) <= factorial(m),
{
    lemma_even_ranks_bounded(p, m, factorial(m));
}

} // verus!
