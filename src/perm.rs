//! Permutations of `0..n` and their generation by rank.
use vstd::prelude::*;
use vstd::arithmetic::div_mod::{
    lemma_fundamental_div_mod, lemma_fundamental_div_mod_converse, lemma_mod_pos_bound,
};
use itertools::Itertools;

verus! {

/// A permutation of `0..n`, stored densely as `data`.
#[derive(Debug, Clone)]
pub struct Perm {
    pub n: u8,
    pub data: Vec<u8>,
}

/// `s` lists each of `0..s.len()` exactly once.
pub open spec fn is_perm(s: Seq<u8>) -> bool {
    &&& forall|i: int| 0 <= i < s.len() ==> (#[trigger] s[i] as int) < s.len()
    &&& forall|i: int, j: int|
        0 <= i < s.len() && 0 <= j < s.len() && i != j ==> #[trigger] s[i] != #[trigger] s[j]
    &&& forall|v: u8| (v as int) < s.len() ==> #[trigger] s.contains(v)
}

/// The sequence `0, 1, ..., n - 1`.
pub open spec fn identity_seq(n: nat) -> Seq<u8> {
    Seq::new(n, |i: int| i as u8)
}

pub open spec fn factorial(n: nat) -> nat
    decreases n,
{
    if n == 0 {
        1
    } else {
        n * factorial((n - 1) as nat)
    }
}

/// The permutation of `pool` with rank `index` in the factorial number system:
/// the first element is `pool[index / (len - 1)!]`, the rest is the permutation
/// of what remains with rank `index % (len - 1)!`.
pub open spec fn unrank_from(index: nat, pool: Seq<u8>) -> Seq<u8>
    decreases pool.len(),
{
    if pool.len() == 0 {
        Seq::empty()
    } else {
        let f = factorial((pool.len() - 1) as nat);
        let pos = (index / f) as int;
        if pos < 0 || pos >= pool.len() {
            Seq::empty()
        } else {
            seq![pool[pos]] + unrank_from(index % f, pool.remove(pos))
        }
    }
}

/// The permutation of length `n` with rank `index`.
pub open spec fn unrank(index: nat, n: nat) -> Seq<u8> {
    unrank_from(index, identity_seq(n))
}

pub proof fn lemma_factorial_positive(n: nat)
    ensures
        factorial(n) >= 1,
    decreases n,
{
    if n > 0 {
        lemma_factorial_positive((n - 1) as nat);
        assert(n * factorial((n - 1) as nat) >= 1) by (nonlinear_arith)
            requires
                n >= 1,
                factorial((n - 1) as nat) >= 1,
        ;
    }
}

pub proof fn lemma_factorial_monotone(a: nat, b: nat)
    requires
        a <= b,
    ensures
        factorial(a) <= factorial(b),
    decreases b,
{
    if a < b {
        lemma_factorial_monotone(a, (b - 1) as nat);
        lemma_factorial_positive((b - 1) as nat);
        assert(factorial((b - 1) as nat) <= b * factorial((b - 1) as nat)) by (nonlinear_arith)
            requires
                b >= 1,
        ;
    }
}

proof fn lemma_small_div_mod(x: nat, d: nat)
    requires
        x < d,
    ensures
        x / d == 0,
        x % d == x,
{
    lemma_fundamental_div_mod_converse(x as int, d as int, 0, x as int);
}

/// With `index < len!`, the leading position `index / (len - 1)!` is in range
/// and the remaining rank is below `(len - 1)!`.
proof fn lemma_rank_split(index: nat, len: nat)
    requires
        len > 0,
        index < factorial(len),
    ensures
        factorial((len - 1) as nat) > 0,
        index / factorial((len - 1) as nat) < len,
        index % factorial((len - 1) as nat) < factorial((len - 1) as nat),
        index == factorial((len - 1) as nat) * (index / factorial((len - 1) as nat)) + index
            % factorial((len - 1) as nat),
{
    let f = factorial((len - 1) as nat);
    lemma_factorial_positive((len - 1) as nat);
    lemma_fundamental_div_mod(index as int, f as int);
    lemma_mod_pos_bound(index as int, f as int);
    let q = index / f;
    assert(q < len) by (nonlinear_arith)
        requires
            f * q <= index,
            index < len * f,
            f > 0,
    ;
}

/// The permutation of rank `index` rearranges `pool`.
pub proof fn lemma_unrank_from_rearranges(index: nat, pool: Seq<u8>)
    requires
        index < factorial(pool.len()),
    ensures
        unrank_from(index, pool).len() == pool.len(),
        forall|x: u8| #[trigger] unrank_from(index, pool).contains(x) <==> pool.contains(x),
        pool.no_duplicates() ==> unrank_from(index, pool).no_duplicates(),
    decreases pool.len(),
{
    if pool.len() > 0 {
        lemma_rank_split(index, pool.len());
        let f = factorial((pool.len() - 1) as nat);
        let pos = (index / f) as int;
        let rest = pool.remove(pos);
        lemma_unrank_from_rearranges(index % f, rest);
        let tail = unrank_from(index % f, rest);
        let r = unrank_from(index, pool);
        assert(r == seq![pool[pos]] + tail);
        assert forall|x: u8| #[trigger] r.contains(x) <==> pool.contains(x) by {
            if r.contains(x) {
                let k = choose|k: int| 0 <= k < r.len() && r[k] == x;
                if k > 0 {
                    assert(tail[k - 1] == x);
                    assert(tail.contains(x));
                    let j = choose|j: int| 0 <= j < rest.len() && rest[j] == x;
                    if j < pos {
                        assert(pool[j] == x);
                    } else {
                        assert(pool[j + 1] == x);
                    }
                } else {
                    assert(pool[pos] == x);
                }
            }
            if pool.contains(x) {
                let j = choose|j: int| 0 <= j < pool.len() && pool[j] == x;
                if j == pos {
                    assert(r[0] == x);
                } else {
                    if j < pos {
                        assert(rest[j] == x);
                    } else {
                        assert(rest[j - 1] == x);
                    }
                    assert(rest.contains(x));
                    assert(tail.contains(x));
                    let k = choose|k: int| 0 <= k < tail.len() && tail[k] == x;
                    assert(r[k + 1] == x);
                }
            }
        }
        if pool.no_duplicates() {
            assert(rest.no_duplicates()) by {
                assert forall|a: int, b: int|
                    0 <= a < rest.len() && 0 <= b < rest.len() && a != b implies rest[a]
                    != rest[b] by {
                    let a2 = if a < pos { a } else { a + 1 };
                    let b2 = if b < pos { b } else { b + 1 };
                    assert(rest[a] == pool[a2]);
                    assert(rest[b] == pool[b2]);
                }
            }
            assert(!rest.contains(pool[pos])) by {
                if rest.contains(pool[pos]) {
                    let j = choose|j: int| 0 <= j < rest.len() && rest[j] == pool[pos];
                    let j2 = if j < pos { j } else { j + 1 };
                    assert(pool[j2] == pool[pos]);
                }
            }
            assert forall|a: int, b: int|
                0 <= a < r.len() && 0 <= b < r.len() && a != b implies r[a] != r[b] by {
                if a > 0 && b > 0 {
                    assert(r[a] == tail[a - 1] && r[b] == tail[b - 1]);
                } else if a == 0 {
                    assert(r[b] == tail[b - 1]);
                    assert(tail.contains(r[b]));
                } else {
                    assert(r[a] == tail[a - 1]);
                    assert(tail.contains(r[a]));
                }
            }
        }
    }
}

/// Every rank below `n!` gives a permutation of length `n`.
pub proof fn lemma_unrank_is_perm(index: nat, n: nat)
    requires
        index < factorial(n),
        n <= 256,
    ensures
        unrank(index, n).len() == n,
        is_perm(unrank(index, n)),
{
    let pool = identity_seq(n);
    let r = unrank(index, n);
    assert(pool.no_duplicates()) by {
        assert forall|a: int, b: int|
            0 <= a < pool.len() && 0 <= b < pool.len() && a != b implies pool[a] != pool[b] by {
            assert(pool[a] as int == a && pool[b] as int == b);
        }
    }
    lemma_unrank_from_rearranges(index, pool);
    assert forall|i: int| 0 <= i < r.len() implies (#[trigger] r[i] as int) < r.len() by {
        assert(r.contains(r[i]));
        assert(pool.contains(r[i]));
    }
    assert forall|v: u8| (v as int) < r.len() implies #[trigger] r.contains(v) by {
        assert(pool[v as int] == v);
        assert(pool.contains(v));
    }
}

/// `s` holds the values of `pool`, each exactly once.
pub open spec fn rearranges(s: Seq<u8>, pool: Seq<u8>) -> bool {
    &&& s.len() == pool.len()
    &&& s.no_duplicates()
    &&& pool.no_duplicates()
    &&& forall|x: u8| #[trigger] s.contains(x) <==> pool.contains(x)
}

proof fn lemma_remove_keeps_distinct(pool: Seq<u8>, pos: int)
    requires
        pool.no_duplicates(),
        0 <= pos < pool.len(),
    ensures
        pool.remove(pos).no_duplicates(),
        forall|x: u8| #[trigger] pool.remove(pos).contains(x) <==> pool.contains(x) && x != pool[pos],
{
    let rest = pool.remove(pos);
    assert forall|a: int, b: int| 0 <= a < rest.len() && 0 <= b < rest.len() && a != b implies rest[a]
        != rest[b] by {
        let a2 = if a < pos { a } else { a + 1 };
        let b2 = if b < pos { b } else { b + 1 };
        assert(rest[a] == pool[a2]);
        assert(rest[b] == pool[b2]);
    }
    assert forall|x: u8| #[trigger] rest.contains(x) <==> pool.contains(x) && x != pool[pos] by {
        if rest.contains(x) {
            let j = choose|j: int| 0 <= j < rest.len() && rest[j] == x;
            let j2 = if j < pos { j } else { j + 1 };
            assert(pool[j2] == x);
        }
        if pool.contains(x) && x != pool[pos] {
            let j = choose|j: int| 0 <= j < pool.len() && pool[j] == x;
            if j < pos {
                assert(rest[j] == x);
            } else {
                assert(rest[j - 1] == x);
            }
        }
    }
}

proof fn lemma_unrank_from_injective(a: nat, b: nat, pool: Seq<u8>)
    requires
        a < factorial(pool.len()),
        b < factorial(pool.len()),
        pool.no_duplicates(),
        unrank_from(a, pool) == unrank_from(b, pool),
    ensures
        a == b,
    decreases pool.len(),
{
    if pool.len() == 0 {
        assert(factorial(0) == 1);
    } else {
        lemma_rank_split(a, pool.len());
        lemma_rank_split(b, pool.len());
        let f = factorial((pool.len() - 1) as nat);
        let pa = (a / f) as int;
        let pb = (b / f) as int;
        let ra = unrank_from(a, pool);
        assert(ra[0] == pool[pa]);
        assert(unrank_from(b, pool)[0] == pool[pb]);
        assert(pa == pb);
        let rest = pool.remove(pa);
        lemma_remove_keeps_distinct(pool, pa);
        assert(unrank_from(a % f, rest) =~= ra.subrange(1, ra.len() as int));
        assert(unrank_from(b % f, rest) =~= ra.subrange(1, ra.len() as int));
        lemma_unrank_from_injective(a % f, b % f, rest);
    }
}

proof fn lemma_unrank_from_onto(s: Seq<u8>, pool: Seq<u8>)
    requires
        rearranges(s, pool),
    ensures
        exists|i: nat| i < factorial(pool.len()) && unrank_from(i, pool) == s,
    decreases pool.len(),
{
    if pool.len() == 0 {
        assert(factorial(0) == 1);
        assert(unrank_from(0, pool) =~= s);
    } else {
        let len = pool.len();
        let f = factorial((len - 1) as nat);
        lemma_factorial_positive((len - 1) as nat);
        assert(s.contains(s[0]));
        let pos = choose|j: int| 0 <= j < pool.len() && pool[j] == s[0];
        let rest = pool.remove(pos);
        lemma_remove_keeps_distinct(pool, pos);
        let tail = s.subrange(1, s.len() as int);
        assert(tail.no_duplicates()) by {
            assert forall|a: int, b: int| 0 <= a < tail.len() && 0 <= b < tail.len() && a != b implies tail[a]
                != tail[b] by {
                assert(tail[a] == s[a + 1] && tail[b] == s[b + 1]);
            }
        }
        assert forall|x: u8| #[trigger] tail.contains(x) <==> rest.contains(x) by {
            if tail.contains(x) {
                let j = choose|j: int| 0 <= j < tail.len() && tail[j] == x;
                assert(s[j + 1] == x);
                assert(s.contains(x));
                assert(x != s[0]);
            }
            if rest.contains(x) {
                assert(pool.contains(x));
                assert(s.contains(x));
                let j = choose|j: int| 0 <= j < s.len() && s[j] == x;
                assert(j != 0);
                assert(tail[j - 1] == x);
            }
        }
        lemma_unrank_from_onto(tail, rest);
        let i2 = choose|i: nat| i < factorial(rest.len()) && unrank_from(i, rest) == tail;
        let index = (pos * f + i2) as nat;
        assert(index < len * f) by (nonlinear_arith)
            requires
                0 <= pos <= len - 1,
                i2 < f,
                index == pos * f + i2,
        ;
        assert(factorial(len) == len * f);
        lemma_fundamental_div_mod_converse(index as int, f as int, pos, i2 as int);
        assert(unrank_from(index, pool) =~= s);
    }
}

/// Ranks `0..n!` give each permutation of length `n` exactly once: every rank
/// gives a permutation, distinct ranks give distinct permutations, and every
/// permutation has a rank.
pub proof fn lemma_unrank_bijective(n: nat)
    requires
        n <= 256,
    ensures
        forall|i: nat| i < factorial(n) ==> is_perm(#[trigger] unrank(i, n)) && unrank(i, n).len() == n,
        forall|i: nat, j: nat|
            i < factorial(n) && j < factorial(n) && #[trigger] unrank(i, n) == #[trigger] unrank(j, n)
                ==> i == j,
        forall|s: Seq<u8>|
            s.len() == n && #[trigger] is_perm(s) ==> exists|i: nat| i < factorial(n) && unrank(i, n) == s,
{
    let pool = identity_seq(n);
    assert(pool.no_duplicates()) by {
        assert forall|a: int, b: int|
            0 <= a < pool.len() && 0 <= b < pool.len() && a != b implies pool[a] != pool[b] by {
            assert(pool[a] as int == a && pool[b] as int == b);
        }
    }
    assert forall|i: nat| i < factorial(n) implies is_perm(#[trigger] unrank(i, n)) && unrank(i, n).len() == n by {
        lemma_unrank_is_perm(i, n);
    }
    assert forall|i: nat, j: nat|
        i < factorial(n) && j < factorial(n) && #[trigger] unrank(i, n) == #[trigger] unrank(j, n) implies i == j by {
        lemma_unrank_from_injective(i, j, pool);
    }
    assert forall|s: Seq<u8>| s.len() == n && #[trigger] is_perm(s) implies exists|i: nat|
        i < factorial(n) && unrank(i, n) == s by {
        assert(s.no_duplicates()) by {
            assert forall|a: int, b: int| 0 <= a < s.len() && 0 <= b < s.len() && a != b implies s[a] != s[b] by {}
        }
        assert forall|x: u8| #[trigger] s.contains(x) <==> pool.contains(x) by {
            if s.contains(x) {
                let j = choose|j: int| 0 <= j < s.len() && s[j] == x;
                assert(pool[x as int] == x);
            }
            if pool.contains(x) {
                let j = choose|j: int| 0 <= j < pool.len() && pool[j] == x;
                assert((x as int) < n);
            }
        }
        lemma_unrank_from_onto(s, pool);
        let i = choose|i: nat| i < factorial(pool.len()) && unrank_from(i, pool) == s;
        assert(unrank(i, n) == s);
    }
}

/// `k!`, or `None` where it does not fit in a `usize`.
pub fn checked_factorial(k: usize) -> (r: Option<usize>)
    ensures
        match r {
            Some(f) => f == factorial(k as nat),
            None => factorial(k as nat) > usize::MAX,
        },
{
    let mut f: usize = 1;
    let mut j: usize = 0;
    while j < k
        invariant
            j <= k,
            f == factorial(j as nat),
        decreases k - j,
    {
        let next = j + 1;
        let limit = usize::MAX / next;
        proof {
            lemma_fundamental_div_mod(usize::MAX as int, next as int);
            lemma_mod_pos_bound(usize::MAX as int, next as int);
            assert(factorial(next as nat) == next * factorial(j as nat));
        }
        if f > limit {
            proof {
                assert(next * f > usize::MAX) by (nonlinear_arith)
                    requires
                        f >= limit + 1,
                        next >= 1,
                        usize::MAX == next * limit + usize::MAX % next,
                        usize::MAX % next < next,
                ;
                lemma_factorial_monotone(next as nat, k as nat);
            }
            return None;
        }
        proof {
            assert(next * f <= usize::MAX) by (nonlinear_arith)
                requires
                    f <= limit,
                    next >= 1,
                    usize::MAX == next * limit + usize::MAX % next,
                    usize::MAX % next >= 0,
            ;
        }
        j = next;
        f = j * f;
    }
    Some(f)
}

/// `k!`, computed as the product `1 * 2 * ... * k`.
pub fn factorial_of(k: usize) -> (r: usize)
    requires
        factorial(k as nat) <= usize::MAX,
    ensures
        r == factorial(k as nat),
{
    let mut f: usize = 1;
    let mut j: usize = 0;
    while j < k
        invariant
            j <= k,
            f == factorial(j as nat),
            factorial(k as nat) <= usize::MAX,
        decreases k - j,
    {
        j += 1;
        proof {
            lemma_factorial_monotone(j as nat, k as nat);
            assert(factorial(j as nat) == j * factorial((j - 1) as nat));
        }
        f = j * f;
    }
    f
}

impl Perm {
    /// A well-formed permutation: `data` holds each of `0..n` exactly once.
    pub open spec fn wf(&self) -> bool {
        &&& self.data@.len() == self.n as int
        &&& is_perm(self.data@)
    }

    /// Wraps `data` as a permutation of length `data.len()`.
    /// The values are taken on trust; `is_permutation` checks them.
    pub fn new(data: Vec<u8>) -> (r: Perm)
        requires
            data@.len() <= u8::MAX,
        ensures
            r.n as int == data@.len(),
            r.data@ == data@,
    {
        let n = data.len() as u8;
        Perm { n, data }
    }

    /// Whether `data` has length `n` and holds each of `0..n` exactly once.
    pub fn is_permutation(&self) -> (r: bool)
        ensures
            r == self.wf(),
    {
        let n = self.n as usize;
        if self.data.len() != n {
            return false;
        }
        let mut seen: Vec<bool> = Vec::new();
        let mut v: usize = 0;
        while v < n
            invariant
                v <= n,
                seen@.len() == v,
                forall|x: int| 0 <= x < v ==> !seen@[x],
            decreases n - v,
        {
            seen.push(false);
            v += 1;
        }
        let mut i: usize = 0;
        while i < n
            invariant
                i <= n,
                n == self.n,
                self.data@.len() == n,
                seen@.len() == n,
                forall|a: int| 0 <= a < i ==> (#[trigger] self.data@[a] as int) < n,
                forall|a: int, b: int|
                    0 <= a < i && 0 <= b < i && a != b ==> #[trigger] self.data@[a]
                        != #[trigger] self.data@[b],
                forall|x: int|
                    0 <= x < n ==> (#[trigger] seen@[x] <==> exists|a: int|
                        0 <= a < i && self.data@[a] as int == x),
            decreases n - i,
        {
            let x = self.data[i] as usize;
            if x >= n || seen[x] {
                proof {
                    if x < n {
                        let a = choose|a: int| 0 <= a < i && self.data@[a] as int == x;
                        assert(self.data@[a] == self.data@[i as int]);
                    }
                }
                return false;
            }
            seen.set(x, true);
            i += 1;
        }
        let mut w: usize = 0;
        while w < n
            invariant
                w <= n,
                n == self.n,
                self.data@.len() == n,
                seen@.len() == n,
                forall|x: int| 0 <= x < w ==> #[trigger] seen@[x],
                forall|x: int|
                    0 <= x < n ==> (#[trigger] seen@[x] <==> exists|a: int|
                        0 <= a < n && self.data@[a] as int == x),
            decreases n - w,
        {
            if !seen[w] {
                proof {
                    if self.data@.contains(w as u8) {
                        let a = choose|a: int| 0 <= a < n && self.data@[a] == w as u8;
                        assert(self.data@[a] as int == w as int);
                    }
                }
                return false;
            }
            w += 1;
        }
        proof {
            assert forall|v: u8| (v as int) < self.data@.len() implies #[trigger] self.data@.contains(v) by {
                assert(seen@[v as int]);
                let a = choose|a: int| 0 <= a < n && self.data@[a] as int == v as int;
                assert(self.data@[a] == v);
            }
        }
        true
    }

    /// The permutation of length `n` with rank `index` in the factorial number
    /// system (rank 0 is the identity, ranks follow lexicographic order).
    pub fn unrank_permutation(index: usize, n: u8) -> (r: Perm)
        requires
            index < factorial(n as nat),
        ensures
            r.wf(),
            r.n == n,
            r.data@ == unrank(index as nat, n as nat),
    {
        let mut elements: Vec<u8> = Vec::new();
        let mut v: u8 = 0;
        while v < n
            invariant
                v <= n,
                elements@ == identity_seq(v as nat),
            decreases n - v,
        {
            elements.push(v);
            v += 1;
            assert(elements@ =~= identity_seq(v as nat));
        }
        let mut data: Vec<u8> = Vec::new();
        let mut rank: usize = index;
        let mut i: usize = n as usize;
        while i > 0
            invariant
                i <= n,
                elements@.len() == i,
                rank < factorial(i as nat),
                data@ + unrank_from(rank as nat, elements@) == unrank(index as nat, n as nat),
            decreases i,
        {
            proof {
                lemma_rank_split(rank as nat, i as nat);
            }
            let ghost old_data = data@;
            let ghost old_elements = elements@;
            let ghost old_rank = rank;
            let ghost fs = factorial((i - 1) as nat);
            let pos: usize;
            match checked_factorial(i - 1) {
                Some(f) => {
                    pos = rank / f;
                    rank = rank % f;
                },
                None => {
                    proof {
                        lemma_small_div_mod(rank as nat, fs);
                    }
                    pos = 0;
                },
            }
            let e = elements.remove(pos);
            data.push(e);
            i -= 1;
            proof {
                assert(unrank_from(old_rank as nat, old_elements) == seq![e] + unrank_from(
                    rank as nat,
                    elements@,
                ));
                assert(data@ + unrank_from(rank as nat, elements@) =~= old_data + unrank_from(
                    old_rank as nat,
                    old_elements,
                ));
            }
        }
        proof {
            assert(data@ =~= unrank(index as nat, n as nat));
            lemma_unrank_is_perm(index as nat, n as nat);
        }
        Perm::new(data)
    }
}

/// Relies on itertools' `Itertools::permutations` on `0..n` with `k = n`: it
/// yields every arrangement of all of `0..n`, one vector each, `n!` in all,
/// in lexicographic order of the indices into `0..n`; as `0..n` is sorted,
/// entry `i` is the permutation of rank `i`.
#[verifier::external_body]
fn permutations_of_range(n: u8) -> (r: Vec<Vec<u8>>)
    ensures
        r@.len() == factorial(n as nat),
        forall|i: int| 0 <= i < r@.len() ==> (#[trigger] r@[i])@.len() == n && is_perm(r@[i]@),
        forall|i: int| 0 <= i < r@.len() ==> (#[trigger] r@[i])@ == unrank(i as nat, n as nat),
{
    (0..n).permutations(n as usize).collect()
}

impl Perm {
    /// All `n!` permutations of length `n`, in lexicographic order: entry `i`
    /// is the permutation of rank `i`.
    pub fn of_length(n: u8) -> (r: Vec<Perm>)
        ensures
            r@.len() == factorial(n as nat),
            forall|i: int| 0 <= i < r@.len() ==> (#[trigger] r@[i]).wf() && r@[i].n == n,
            forall|i: int| 0 <= i < r@.len() ==> (#[trigger] r@[i]).data@ == unrank(i as nat, n as nat),
    {
        let all = permutations_of_range(n);
        let mut perms: Vec<Perm> = Vec::new();
        let mut i: usize = 0;
        while i < all.len()
            invariant
                i <= all@.len(),
                perms@.len() == i,
                forall|j: int| 0 <= j < all@.len() ==> (#[trigger] all@[j])@.len() == n && is_perm(all@[j]@),
                forall|j: int| 0 <= j < all@.len() ==> (#[trigger] all@[j])@ == unrank(j as nat, n as nat),
                forall|j: int| 0 <= j < i ==> (#[trigger] perms@[j]).wf() && perms@[j].n == n,
                forall|j: int| 0 <= j < i ==> (#[trigger] perms@[j]).data@ == unrank(j as nat, n as nat),
            decreases all@.len() - i,
        {
            let data = all[i].clone();
            proof {
                assert(data@ =~= all@[i as int]@);
            }
            perms.push(Perm::new(data));
            i += 1;
        }
        perms
    }
}

} // verus!
