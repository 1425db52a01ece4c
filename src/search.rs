//! Occurrence search: pruned backtracking over a target permutation, driven
//! by the details of a pattern.
use vstd::prelude::*;
use crate::perm::{Perm, is_perm, identity_seq};
use crate::pattern::{PattDetails, Pattern, details_ok};

verus! {

/// The positions `occ` of `t` carry values ordered as the first `occ.len()`
/// values of `p`.
pub open spec fn order_matches(p: Seq<u8>, t: Seq<u8>, occ: Seq<u8>) -> bool {
    &&& occ.len() <= p.len()
    &&& forall|j: int| 0 <= j < occ.len() ==> (#[trigger] occ[j] as int) < t.len()
    &&& forall|a: int, b: int|
        0 <= a < occ.len() && 0 <= b < occ.len() ==> (#[trigger] p[a] < #[trigger] p[b] <==> t[occ[a] as int]
            < t[occ[b] as int])
}

/// All ways, in lexicographic order, to complete `prefix` into a full
/// occurrence of `p` in `t` by appending positions taken in increasing order
/// from `i` on.
pub open spec fn extensions(p: Seq<u8>, t: Seq<u8>, prefix: Seq<u8>, i: int) -> Seq<Seq<u8>>
    decreases t.len() - i,
{
    if prefix.len() >= p.len() {
        seq![prefix]
    } else if i >= t.len() {
        Seq::empty()
    } else {
        let next = prefix.push(i as u8);
        let here = if order_matches(p, t, next) {
            extensions(p, t, next, i + 1)
        } else {
            Seq::empty()
        };
        here + extensions(p, t, prefix, i + 1)
    }
}

/// Every occurrence of `p` in `t`: each strictly increasing tuple of
/// positions of `t` whose values are ordered as `p`, in lexicographic order.
pub open spec fn occurrences(p: Seq<u8>, t: Seq<u8>) -> Seq<Seq<u8>> {
    extensions(p, t, Seq::empty(), 0)
}

/// The least value that position `k` may take in `t`, given the positions
/// `prefix` already chosen.
pub open spec fn lower_limit(t: Seq<u8>, prefix: Seq<u8>, d: PattDetails) -> int {
    match d.left_floor {
        Some(f) => t[prefix[f as int] as int] + d.lower_bound,
        None => d.lower_bound as int,
    }
}

/// The greatest value that position `k` may take in `t`.
pub open spec fn upper_limit(t: Seq<u8>, prefix: Seq<u8>, d: PattDetails) -> int {
    match d.left_ceil {
        Some(c) => t[prefix[c as int] as int] - d.upper_bound,
        None => t.len() - d.upper_bound,
    }
}

/// Too few positions remain to complete the prefix.
pub proof fn lemma_too_few_positions(p: Seq<u8>, t: Seq<u8>, prefix: Seq<u8>, i: int)
    requires
        prefix.len() < p.len(),
        t.len() - i < p.len() - prefix.len(),
    ensures
        extensions(p, t, prefix, i) == Seq::<Seq<u8>>::empty(),
    decreases t.len() - i,
{
    if i < t.len() {
        let next = prefix.push(i as u8);
        lemma_too_few_positions(p, t, prefix, i + 1);
        if order_matches(p, t, next) {
            lemma_too_few_positions(p, t, next, i + 1);
        }
        assert(extensions(p, t, prefix, i) =~= Seq::<Seq<u8>>::empty());
    }
}

/// Each listed extension is a full tuple that starts with `prefix`, keeps the
/// order of `p`, and uses positions from `i` on after the prefix.
pub proof fn lemma_extensions_match(p: Seq<u8>, t: Seq<u8>, prefix: Seq<u8>, i: int)
    requires
        order_matches(p, t, prefix),
        t.len() <= 256,
    ensures
        forall|x: int|
            0 <= x < extensions(p, t, prefix, i).len() ==> {
                let e = #[trigger] extensions(p, t, prefix, i)[x];
                &&& e.len() == p.len()
                &&& e.subrange(0, prefix.len() as int) == prefix
                &&& order_matches(p, t, e)
                &&& forall|j: int| prefix.len() <= j < e.len() ==> i <= #[trigger] e[j]
            },
    decreases t.len() - i,
{
    let ext = extensions(p, t, prefix, i);
    if prefix.len() >= p.len() {
        assert(prefix.subrange(0, prefix.len() as int) =~= prefix);
    } else if i < t.len() {
        let next = prefix.push(i as u8);
        lemma_extensions_match(p, t, prefix, i + 1);
        let rest = extensions(p, t, prefix, i + 1);
        if order_matches(p, t, next) {
            lemma_extensions_match(p, t, next, i + 1);
            let here = extensions(p, t, next, i + 1);
            assert(ext == here + rest);
            assert forall|x: int| 0 <= x < ext.len() implies {
                let e = #[trigger] ext[x];
                &&& e.len() == p.len()
                &&& e.subrange(0, prefix.len() as int) == prefix
                &&& order_matches(p, t, e)
                &&& forall|j: int| prefix.len() <= j < e.len() ==> i <= #[trigger] e[j]
            } by {
                if x < here.len() {
                    let e = here[x];
                    assert(ext[x] == e);
                    assert(e.subrange(0, next.len() as int) == next);
                    assert(e.subrange(0, prefix.len() as int) =~= next.subrange(0, prefix.len() as int));
                    assert(next.subrange(0, prefix.len() as int) =~= prefix);
                    assert forall|j: int| prefix.len() <= j < e.len() implies i <= #[trigger] e[j] by {
                        if j == prefix.len() {
                            assert(e[j] == e.subrange(0, next.len() as int)[j]);
                            assert(next[j] == i as u8);
                        }
                    }
                } else {
                    assert(ext[x] == rest[x - here.len()]);
                }
            }
        } else {
            assert(ext =~= rest);
        }
    }
}

/// Values of `g` rise by at least one per step on `lo..=hi`, hence by at least
/// `w - v` from `v` to `w`.
proof fn lemma_rising_gap(g: spec_fn(int) -> int, lo: int, hi: int, v: int, w: int)
    requires
        lo <= v <= w <= hi,
        forall|x: int| lo <= x < hi ==> #[trigger] g(x) < g(x + 1),
    ensures
        g(w) - g(v) >= w - v,
    decreases w - v,
{
    if v < w {
        lemma_rising_gap(g, lo, hi, v, w - 1);
    }
}

/// In a full occurrence, values that are `d` apart in the pattern are at
/// least `d` apart in the target, and each keeps room for the values below and
/// above it.
pub proof fn lemma_occurrence_gaps(p: Seq<u8>, t: Seq<u8>, e: Seq<u8>)
    requires
        is_perm(p),
        is_perm(t),
        p.len() <= 256,
        e.len() == p.len(),
        order_matches(p, t, e),
    ensures
        forall|a: int, b: int|
            0 <= a < p.len() && 0 <= b < p.len() && p[a] < p[b] ==> t[e[b] as int] - t[e[a] as int]
                >= #[trigger] p[b] - #[trigger] p[a],
        forall|a: int| 0 <= a < p.len() ==> t[e[a] as int] >= #[trigger] p[a],
        forall|a: int| 0 <= a < p.len() ==> t.len() - t[e[a] as int] >= p.len() - #[trigger] p[a],
{
    let n = p.len() as int;
    let pos_of = |v: int| choose|j: int| 0 <= j < n && p[j] as int == v;
    let g = |v: int| t[e[pos_of(v)] as int] as int;
    assert forall|v: int| 0 <= v < n implies 0 <= #[trigger] pos_of(v) < n && p[pos_of(v)] as int == v by {
        assert(p.contains(v as u8));
        let j = choose|j: int| 0 <= j < p.len() && p[j] == v as u8;
        assert(p[j] as int == v);
    }
    assert forall|a: int| 0 <= a < n implies #[trigger] pos_of(p[a] as int) == a by {
        let j = pos_of(p[a] as int);
        assert(p[j] == p[a]);
    }
    assert forall|x: int| 0 <= x < n - 1 implies #[trigger] g(x) < g(x + 1) by {
        assert(0 <= pos_of(x) < n && p[pos_of(x)] as int == x);
        assert(0 <= pos_of(x + 1) < n && p[pos_of(x + 1)] as int == x + 1);
        assert(p[pos_of(x)] < p[pos_of(x + 1)]);
    }
    assert forall|a: int, b: int|
        0 <= a < p.len() && 0 <= b < p.len() && p[a] < p[b] implies t[e[b] as int] - t[e[a] as int]
            >= #[trigger] p[b] - #[trigger] p[a] by {
        lemma_rising_gap(g, 0, n - 1, p[a] as int, p[b] as int);
        assert(pos_of(p[a] as int) == a);
        assert(pos_of(p[b] as int) == b);
    }
    assert forall|a: int| 0 <= a < p.len() implies t[e[a] as int] >= #[trigger] p[a] by {
        lemma_rising_gap(g, 0, n - 1, 0, p[a] as int);
        assert(pos_of(p[a] as int) == a);
    }
    assert forall|a: int| 0 <= a < p.len() implies t.len() - t[e[a] as int] >= p.len() - #[trigger] p[a] by {
        lemma_rising_gap(g, 0, n - 1, p[a] as int, n - 1);
        assert(pos_of(p[a] as int) == a);
        assert(0 <= pos_of(n - 1) < n);
        assert((e[pos_of(n - 1)] as int) < t.len());
        assert((t[e[pos_of(n - 1)] as int] as int) < t.len());
    }
}

/// The limits of a position are exact: a value inside them keeps the order of
/// the pattern, and a value outside them that keeps it cannot be completed.
pub proof fn lemma_limits_exact(p: Seq<u8>, t: Seq<u8>, prefix: Seq<u8>, i: int, d: PattDetails)
    requires
        is_perm(p),
        is_perm(t),
        p.len() <= 255,
        t.len() <= 255,
        prefix.len() < p.len(),
        order_matches(p, t, prefix),
        details_ok(p, prefix.len() as int, d),
        0 <= i < t.len(),
    ensures
        lower_limit(t, prefix, d) <= t[i] <= upper_limit(t, prefix, d) ==> order_matches(
            p,
            t,
            prefix.push(i as u8),
        ),
        order_matches(p, t, prefix.push(i as u8)) && extensions(p, t, prefix.push(i as u8), i + 1).len()
            > 0 ==> lower_limit(t, prefix, d) <= t[i] <= upper_limit(t, prefix, d),
{
    let k = prefix.len() as int;
    let next = prefix.push(i as u8);
    let lo = lower_limit(t, prefix, d);
    let hi = upper_limit(t, prefix, d);
    assert(next[k] as int == i);
    if lo <= t[i] <= hi {
        assert forall|a: int| 0 <= a < k implies (p[a] < p[k] ==> t[prefix[a] as int] < t[i]) && (p[a]
            > p[k] ==> t[prefix[a] as int] > t[i]) by {
            assert(p[a] != p[k]);
            if p[a] < p[k] {
                match d.left_floor {
                    Some(f) => {
                        let f = f as int;
                        if p[a] != p[f] {
                            assert(p[a] < p[f]);
                        } else {
                            assert(a == f);
                        }
                    },
                    None => {},
                }
            }
            if p[a] > p[k] {
                match d.left_ceil {
                    Some(c) => {
                        let c = c as int;
                        if p[a] != p[c] {
                            assert(p[c] < p[a]);
                        } else {
                            assert(a == c);
                        }
                    },
                    None => {},
                }
            }
        }
        assert forall|a: int, b: int|
            0 <= a < next.len() && 0 <= b < next.len() implies (#[trigger] p[a] < #[trigger] p[b]
            <==> t[next[a] as int] < t[next[b] as int]) by {
            if a < k && b < k {
                assert(next[a] == prefix[a] && next[b] == prefix[b]);
            } else if a < k {
                assert(next[a] == prefix[a]);
            } else if b < k {
                assert(next[b] == prefix[b]);
            }
        }
        assert forall|j: int| 0 <= j < next.len() implies (#[trigger] next[j] as int) < t.len() by {
            if j < k {
                assert(next[j] == prefix[j]);
            }
        }
    }
    if order_matches(p, t, next) && extensions(p, t, next, i + 1).len() > 0 {
        lemma_extensions_match(p, t, next, i + 1);
        let e = extensions(p, t, next, i + 1)[0];
        assert(e.subrange(0, next.len() as int) == next);
        assert(e[k] == next[k]);
        lemma_occurrence_gaps(p, t, e);
        match d.left_floor {
            Some(f) => {
                assert(e[f as int] == next[f as int]);
                assert(p[f as int] < p[k]);
            },
            None => {
                assert(t[e[k] as int] >= p[k]);
            },
        }
        match d.left_ceil {
            Some(c) => {
                assert(e[c as int] == next[c as int]);
                assert(p[k] < p[c as int]);
            },
            None => {
                assert(t.len() - t[e[k] as int] >= p.len() - p[k]);
            },
        }
    }
}

/// The contents of a list of tuples.
pub open spec fn tuples(r: Seq<Vec<u8>>) -> Seq<Seq<u8>> {
    r.map_values(|v: Vec<u8>| v@)
}

/// Appends to `res` every completion of `occ[0..k]` that uses positions from
/// `start` on, overwriting `occ[k..]` as scratch space.
fn collect_from(
    start: u8,
    k: u8,
    n: u8,
    details: &Vec<PattDetails>,
    target: &Vec<u8>,
    occ: &mut Vec<u8>,
    res: &mut Vec<Vec<u8>>,
    Ghost(p): Ghost<Seq<u8>>,
)
    requires
        is_perm(p),
        p.len() == n,
        is_perm(target@),
        target@.len() <= 255,
        details@.len() == n,
        forall|j: int| 0 <= j < n ==> details_ok(p, j, #[trigger] details@[j]),
        k < n,
        start as int <= target@.len(),
        old(occ)@.len() == n,
        order_matches(p, target@, old(occ)@.subrange(0, k as int)),
    ensures
        final(occ)@.len() == n,
        final(occ)@.subrange(0, k as int) == old(occ)@.subrange(0, k as int),
        tuples(final(res)@) == tuples(old(res)@) + extensions(
            p,
            target@,
            old(occ)@.subrange(0, k as int),
            start as int,
        ),
    decreases target@.len() - start,
{
    let ghost t = target@;
    let ghost prefix = occ@.subrange(0, k as int);
    let ghost res0 = tuples(res@);
    let m = target.len() as u8;
    if m - start < n - k {
        proof {
            lemma_too_few_positions(p, t, prefix, start as int);
            assert(tuples(res@) =~= res0 + extensions(p, t, prefix, start as int));
        }
        return;
    }
    let d = &details[k as usize];
    proof {
        assert(details_ok(p, k as int, details@[k as int]));
        assert(prefix.len() == k);
        match d.left_floor {
            Some(f) => {
                assert(occ@[f as int] == prefix[f as int]);
            },
            None => {},
        }
        match d.left_ceil {
            Some(c) => {
                assert(occ@[c as int] == prefix[c as int]);
            },
            None => {},
        }
    }
    let lo: i32 = match d.left_floor {
        Some(f) => target[occ[f as usize] as usize] as i32 + d.lower_bound as i32,
        None => d.lower_bound as i32,
    };
    let hi: i32 = match d.left_ceil {
        Some(c) => target[occ[c as usize] as usize] as i32 - d.upper_bound as i32,
        None => m as i32 - d.upper_bound as i32,
    };
    let mut i: u8 = start;
    while m - i >= n - k
        invariant
            start <= i <= m,
            m as int == t.len(),
            is_perm(p),
            p.len() == n,
            is_perm(t),
            t.len() <= 255,
            details@.len() == n,
            forall|j: int| 0 <= j < n ==> details_ok(p, j, #[trigger] details@[j]),
            *d == details@[k as int],
            prefix.len() == k,
            order_matches(p, t, prefix),
            t == target@,
            k < n,
            occ@.len() == n,
            occ@.subrange(0, k as int) == prefix,
            lo == lower_limit(t, prefix, *d),
            hi == upper_limit(t, prefix, *d),
            tuples(res@) + extensions(p, t, prefix, i as int) == res0 + extensions(p, t, prefix, start as int),
        decreases m - i,
    {
        let val = target[i as usize] as i32;
        let ghost next = prefix.push(i as u8);
        let ghost res1 = tuples(res@);
        proof {
            lemma_limits_exact(p, t, prefix, i as int, *d);
            assert(extensions(p, t, prefix, i as int) == (if order_matches(p, t, next) {
                extensions(p, t, next, i + 1)
            } else {
                Seq::empty()
            }) + extensions(p, t, prefix, i + 1));
        }
        if lo <= val && val <= hi {
            occ.set(k as usize, i);
            proof {
                assert(occ@.subrange(0, k + 1) =~= next);
                assert(occ@.subrange(0, k as int) =~= prefix);
            }
            if k == n - 1 {
                let found = occ.clone();
                proof {
                    assert(found@ =~= occ@);
                    assert(occ@ =~= next);
                }
                res.push(found);
                proof {
                    assert(next.len() == p.len());
                    assert(tuples(res@) =~= res1.push(next));
                    assert(extensions(p, t, next, i + 1) == seq![next]);
                }
            } else {
                collect_from(i + 1, k + 1, n, details, target, occ, res, Ghost(p));
                proof {
                    assert(occ@.subrange(0, k as int) =~= occ@.subrange(0, k + 1).subrange(0, k as int));
                    assert(next.subrange(0, k as int) =~= prefix);
                }
            }
        }
        proof {
            assert(tuples(res@) + extensions(p, t, prefix, i + 1) =~= res0 + extensions(p, t, prefix, start as int));
        }
        i += 1;
    }
    proof {
        lemma_too_few_positions(p, t, prefix, i as int);
        assert(tuples(res@) =~= res0 + extensions(p, t, prefix, start as int));
    }
}

/// Adds to `count` the number of completions of `occ[0..k]` that use
/// positions from `start` on, overwriting `occ[k..]` as scratch space.
fn count_from(
    start: u8,
    k: u8,
    n: u8,
    details: &Vec<PattDetails>,
    target: &Vec<u8>,
    occ: &mut Vec<u8>,
    count: &mut usize,
    Ghost(p): Ghost<Seq<u8>>,
)
    requires
        is_perm(p),
        p.len() == n,
        is_perm(target@),
        target@.len() <= 255,
        details@.len() == n,
        forall|j: int| 0 <= j < n ==> details_ok(p, j, #[trigger] details@[j]),
        k < n,
        start as int <= target@.len(),
        old(occ)@.len() == n,
        order_matches(p, target@, old(occ)@.subrange(0, k as int)),
        *old(count) + extensions(p, target@, old(occ)@.subrange(0, k as int), start as int).len()
            <= usize::MAX,
    ensures
        final(occ)@.len() == n,
        final(occ)@.subrange(0, k as int) == old(occ)@.subrange(0, k as int),
        *final(count) == *old(count) + extensions(
            p,
            target@,
            old(occ)@.subrange(0, k as int),
            start as int,
        ).len(),
    decreases target@.len() - start,
{
    let ghost t = target@;
    let ghost prefix = occ@.subrange(0, k as int);
    let ghost count0 = *count;
    let m = target.len() as u8;
    if m - start < n - k {
        proof {
            lemma_too_few_positions(p, t, prefix, start as int);
        }
        return;
    }
    let d = &details[k as usize];
    proof {
        assert(details_ok(p, k as int, details@[k as int]));
        assert(prefix.len() == k);
        match d.left_floor {
            Some(f) => {
                assert(occ@[f as int] == prefix[f as int]);
            },
            None => {},
        }
        match d.left_ceil {
            Some(c) => {
                assert(occ@[c as int] == prefix[c as int]);
            },
            None => {},
        }
    }
    let lo: i32 = match d.left_floor {
        Some(f) => target[occ[f as usize] as usize] as i32 + d.lower_bound as i32,
        None => d.lower_bound as i32,
    };
    let hi: i32 = match d.left_ceil {
        Some(c) => target[occ[c as usize] as usize] as i32 - d.upper_bound as i32,
        None => m as i32 - d.upper_bound as i32,
    };
    let mut i: u8 = start;
    while m - i >= n - k
        invariant
            start <= i <= m,
            m as int == t.len(),
            is_perm(p),
            p.len() == n,
            is_perm(t),
            t.len() <= 255,
            details@.len() == n,
            forall|j: int| 0 <= j < n ==> details_ok(p, j, #[trigger] details@[j]),
            *d == details@[k as int],
            prefix.len() == k,
            order_matches(p, t, prefix),
            t == target@,
            k < n,
            occ@.len() == n,
            occ@.subrange(0, k as int) == prefix,
            lo == lower_limit(t, prefix, *d),
            hi == upper_limit(t, prefix, *d),
            *count + extensions(p, t, prefix, i as int).len() == count0 + extensions(
                p,
                t,
                prefix,
                start as int,
            ).len(),
            count0 + extensions(p, t, prefix, start as int).len() <= usize::MAX,
        decreases m - i,
    {
        let val = target[i as usize] as i32;
        let ghost next = prefix.push(i as u8);
        proof {
            lemma_limits_exact(p, t, prefix, i as int, *d);
            assert(extensions(p, t, prefix, i as int) == (if order_matches(p, t, next) {
                extensions(p, t, next, i + 1)
            } else {
                Seq::empty()
            }) + extensions(p, t, prefix, i + 1));
        }
        if lo <= val && val <= hi {
            occ.set(k as usize, i);
            proof {
                assert(occ@.subrange(0, k + 1) =~= next);
                assert(occ@.subrange(0, k as int) =~= prefix);
            }
            if k == n - 1 {
                proof {
                    assert(next.len() == p.len());
                    assert(extensions(p, t, next, i + 1) == seq![next]);
                }
                *count += 1;
            } else {
                count_from(i + 1, k + 1, n, details, target, occ, count, Ghost(p));
                proof {
                    assert(occ@.subrange(0, k as int) =~= occ@.subrange(0, k + 1).subrange(0, k as int));
                    assert(next.subrange(0, k as int) =~= prefix);
                }
            }
        }
        i += 1;
    }
    proof {
        lemma_too_few_positions(p, t, prefix, i as int);
    }
}

/// `occ` is an occurrence of `p` in `t`: one position of `t` for each position
/// of `p`, strictly increasing, with values in `t` ordered as those of `p`.
pub open spec fn is_occurrence(p: Seq<u8>, t: Seq<u8>, occ: Seq<u8>) -> bool {
    &&& occ.len() == p.len()
    &&& forall|a: int, b: int| 0 <= a < b < occ.len() ==> #[trigger] occ[a] < #[trigger] occ[b]
    &&& order_matches(p, t, occ)
}

/// Positions of `occ` rise strictly and stay below `i`.
pub open spec fn rising_below(occ: Seq<u8>, i: int) -> bool {
    &&& forall|a: int, b: int| 0 <= a < b < occ.len() ==> #[trigger] occ[a] < #[trigger] occ[b]
    &&& forall|a: int| 0 <= a < occ.len() ==> (#[trigger] occ[a] as int) < i
}

proof fn lemma_extensions_sound(p: Seq<u8>, t: Seq<u8>, prefix: Seq<u8>, i: int)
    requires
        order_matches(p, t, prefix),
        rising_below(prefix, i),
        0 <= i,
        t.len() <= 256,
    ensures
        forall|e: Seq<u8>| #[trigger] extensions(p, t, prefix, i).contains(e) ==> is_occurrence(p, t, e),
    decreases t.len() - i,
{
    let ext = extensions(p, t, prefix, i);
    if prefix.len() < p.len() && i < t.len() {
        let next = prefix.push(i as u8);
        lemma_extensions_sound(p, t, prefix, i + 1);
        let rest = extensions(p, t, prefix, i + 1);
        if order_matches(p, t, next) {
            assert(rising_below(next, i + 1)) by {
                assert(next[prefix.len() as int] as int == i);
                assert forall|a: int| 0 <= a < prefix.len() implies next[a] == prefix[a] by {}
            }
            lemma_extensions_sound(p, t, next, i + 1);
            let here = extensions(p, t, next, i + 1);
            assert forall|e: Seq<u8>| #[trigger] ext.contains(e) implies is_occurrence(p, t, e) by {
                let x = choose|x: int| 0 <= x < ext.len() && ext[x] == e;
                if x < here.len() {
                    assert(here[x] == e);
                    assert(here.contains(e));
                } else {
                    assert(rest[x - here.len()] == e);
                    assert(rest.contains(e));
                }
            }
        } else {
            assert(ext =~= rest);
        }
    } else if prefix.len() >= p.len() {
        assert forall|e: Seq<u8>| #[trigger] ext.contains(e) implies is_occurrence(p, t, e) by {
            assert(ext[0] == prefix);
        }
    }
}

proof fn lemma_extensions_complete(p: Seq<u8>, t: Seq<u8>, prefix: Seq<u8>, i: int, e: Seq<u8>)
    requires
        is_occurrence(p, t, e),
        prefix.len() <= e.len(),
        e.subrange(0, prefix.len() as int) == prefix,
        prefix.len() < e.len() ==> i <= e[prefix.len() as int],
        0 <= i,
        t.len() <= 256,
    ensures
        extensions(p, t, prefix, i).contains(e),
    decreases t.len() - i,
{
    let k = prefix.len() as int;
    let ext = extensions(p, t, prefix, i);
    if k >= p.len() {
        assert(e =~= prefix);
        assert(ext[0] == e);
    } else {
        assert((e[k] as int) < t.len());
        let next = prefix.push(i as u8);
        let rest = extensions(p, t, prefix, i + 1);
        if e[k] as int == i {
            assert(next =~= e.subrange(0, k + 1));
            assert(order_matches(p, t, next)) by {
                assert forall|a: int| 0 <= a < next.len() implies next[a] == e[a] by {}
            }
            if k + 1 < e.len() {
                assert(e[k] < e[k + 1]);
            }
            lemma_extensions_complete(p, t, next, i + 1, e);
            let here = extensions(p, t, next, i + 1);
            let x = choose|x: int| 0 <= x < here.len() && here[x] == e;
            assert(ext == here + rest);
            assert(ext[x] == e);
        } else {
            lemma_extensions_complete(p, t, prefix, i + 1, e);
            let x = choose|x: int| 0 <= x < rest.len() && rest[x] == e;
            let here = if order_matches(p, t, next) {
                extensions(p, t, next, i + 1)
            } else {
                Seq::empty()
            };
            assert(ext == here + rest);
            assert(ext[here.len() + x] == e);
        }
    }
}

/// The listed occurrences are exactly the occurrences: every tuple listed is
/// strictly increasing and ordered as the pattern, and every such tuple is
/// listed.
pub proof fn lemma_occurrences_exact(p: Seq<u8>, t: Seq<u8>)
    requires
        t.len() <= 256,
    ensures
        forall|e: Seq<u8>| #[trigger] occurrences(p, t).contains(e) <==> is_occurrence(p, t, e),
{
    lemma_extensions_sound(p, t, Seq::empty(), 0);
    assert forall|e: Seq<u8>| #[trigger] occurrences(p, t).contains(e) <==> is_occurrence(p, t, e) by {
        if is_occurrence(p, t, e) {
            assert(e.subrange(0, 0) =~= Seq::<u8>::empty());
            lemma_extensions_complete(p, t, Seq::empty(), 0, e);
        }
    }
}

#[verifier::rlimit(40)]
proof fn lemma_extensions_distinct(p: Seq<u8>, t: Seq<u8>, prefix: Seq<u8>, i: int)
    requires
        order_matches(p, t, prefix),
        0 <= i,
        t.len() <= 256,
    ensures
        extensions(p, t, prefix, i).no_duplicates(),
    decreases t.len() - i,
{
    let ext = extensions(p, t, prefix, i);
    if prefix.len() < p.len() && i < t.len() {
        let k = prefix.len() as int;
        let next = prefix.push(i as u8);
        lemma_extensions_distinct(p, t, prefix, i + 1);
        lemma_extensions_match(p, t, prefix, i + 1);
        let rest = extensions(p, t, prefix, i + 1);
        if order_matches(p, t, next) {
            lemma_extensions_distinct(p, t, next, i + 1);
            lemma_extensions_match(p, t, next, i + 1);
            let here = extensions(p, t, next, i + 1);
            assert(ext == here + rest);
            assert forall|a: int, b: int| 0 <= a < ext.len() && 0 <= b < ext.len() && a != b implies ext[a]
                != ext[b] by {
                if a < here.len() && b >= here.len() {
                    let ea = here[a];
                    let eb = rest[b - here.len()];
                    assert(ea.subrange(0, k + 1) == next);
                    assert(ea[k] == ea.subrange(0, k + 1)[k]);
                    assert(i + 1 <= eb[k]);
                }
                if b < here.len() && a >= here.len() {
                    let eb = here[b];
                    let ea = rest[a - here.len()];
                    assert(eb.subrange(0, k + 1) == next);
                    assert(eb[k] == eb.subrange(0, k + 1)[k]);
                    assert(i + 1 <= ea[k]);
                }
                if a < here.len() && b < here.len() {
                    assert(ext[a] == here[a] && ext[b] == here[b]);
                }
                if a >= here.len() && b >= here.len() {
                    assert(ext[a] == rest[a - here.len()] && ext[b] == rest[b - here.len()]);
                }
            }
        } else {
            assert(ext =~= rest);
        }
    }
}

/// Each occurrence is listed once: the list has no repeated tuple.
pub proof fn lemma_occurrences_distinct(p: Seq<u8>, t: Seq<u8>)
    requires
        t.len() <= 256,
    ensures
        occurrences(p, t).no_duplicates(),
{
    lemma_extensions_distinct(p, t, Seq::empty(), 0);
}

/// `n` zeros, the scratch space of a search.
fn zeros(n: u8) -> (r: Vec<u8>)
    ensures
        r@.len() == n,
{
    let mut r: Vec<u8> = Vec::new();
    let mut j: u8 = 0;
    while j < n
        invariant
            j <= n,
            r@.len() == j,
        decreases n - j,
    {
        r.push(0);
        j += 1;
    }
    r
}

impl Pattern {
    /// Every occurrence of this pattern in `perm`, as tuples of positions of
    /// `perm`, in lexicographic order.  The empty pattern has exactly one
    /// occurrence, the empty tuple.
    pub fn occurrences_in(&self, perm: &Perm) -> (r: Vec<Vec<u8>>)
        requires
            self.wf(),
            perm.wf(),
        ensures
            tuples(r@) == occurrences(self.perm.data@, perm.data@),
    {
        let ghost p = self.perm.data@;
        let ghost t = perm.data@;
        let n = self.perm.n;
        let m = perm.n;
        let mut results: Vec<Vec<u8>> = Vec::new();
        if n == 0 {
            results.push(Vec::new());
            proof {
                assert(tuples(results@) =~= seq![Seq::<u8>::empty()]);
            }
            return results;
        }
        if n > m {
            proof {
                lemma_too_few_positions(p, t, Seq::empty(), 0);
                assert(tuples(results@) =~= Seq::<Seq<u8>>::empty());
            }
            return results;
        }
        let mut occ = zeros(n);
        proof {
            assert(occ@.subrange(0, 0) =~= Seq::<u8>::empty());
        }
        collect_from(0, 0, n, &self.details, &perm.data, &mut occ, &mut results, Ghost(p));
        proof {
            assert(tuples(Seq::<Vec<u8>>::empty()) =~= Seq::<Seq<u8>>::empty());
            assert(tuples(results@) =~= occurrences(p, t));
        }
        results
    }

    /// The number of occurrences of this pattern in `perm`, found without
    /// listing them.
    pub fn count_occurrences_in(&self, perm: &Perm) -> (r: usize)
        requires
            self.wf(),
            perm.wf(),
            occurrences(self.perm.data@, perm.data@).len() <= usize::MAX,
        ensures
            r == occurrences(self.perm.data@, perm.data@).len(),
    {
        let ghost p = self.perm.data@;
        let ghost t = perm.data@;
        let n = self.perm.n;
        let m = perm.n;
        let mut count: usize = 0;
        if n == 0 {
            return 1;
        }
        if n > m {
            proof {
                lemma_too_few_positions(p, t, Seq::empty(), 0);
            }
            return 0;
        }
        let mut occ = zeros(n);
        proof {
            assert(occ@.subrange(0, 0) =~= Seq::<u8>::empty());
        }
        count_from(0, 0, n, &self.details, &perm.data, &mut occ, &mut count, Ghost(p));
        count
    }
}

impl Perm {
    /// Every occurrence of `patt` in this permutation.
    pub fn occurences_of(&self, patt: &Pattern) -> (r: Vec<Vec<u8>>)
        requires
            patt.wf(),
            self.wf(),
        ensures
            tuples(r@) == occurrences(patt.perm.data@, self.data@),
    {
        patt.occurrences_in(self)
    }

    /// The number of occurrences of `patt` in this permutation.
    pub fn count_occurrences_of(&self, patt: &Pattern) -> (r: usize)
        requires
            patt.wf(),
            self.wf(),
            occurrences(patt.perm.data@, self.data@).len() <= usize::MAX,
        ensures
            r == occurrences(patt.perm.data@, self.data@).len(),
    {
        patt.count_occurrences_in(self)
    }
}

/// A pattern longer than the target has no occurrence in it.
pub proof fn lemma_longer_pattern_never_occurs(p: Seq<u8>, t: Seq<u8>)
    requires
        p.len() > t.len(),
    ensures
        occurrences(p, t) == Seq::<Seq<u8>>::empty(),
        occurrences(p, t).len() == 0,
{
    lemma_too_few_positions(p, t, Seq::empty(), 0);
}

/// The empty pattern occurs exactly once in any target, as the empty tuple.
pub proof fn lemma_empty_pattern_occurs_once(t: Seq<u8>)
    ensures
        occurrences(Seq::empty(), t) == seq![Seq::<u8>::empty()],
{
}

/// Completing the first `k` positions of `p` inside `p` itself, from
/// position `k` on, gives the identity tuple and nothing else.
proof fn lemma_self_extensions(p: Seq<u8>, k: nat)
    requires
        k <= p.len() <= 256,
    ensures
        extensions(p, p, identity_seq(k), k as int) == seq![identity_seq(p.len())],
    decreases p.len() - k,
{
    if k == p.len() {
        assert(identity_seq(k) =~= identity_seq(p.len()));
    } else {
        let next = identity_seq(k).push(k as u8);
        assert(next =~= identity_seq(k + 1));
        assert forall|j: int| 0 <= j < next.len() implies next[j] as int == j by {}
        assert(order_matches(p, p, next));
        lemma_self_extensions(p, k + 1);
        lemma_too_few_positions(p, p, identity_seq(k), (k + 1) as int);
        assert(extensions(p, p, identity_seq(k), k as int) =~= seq![identity_seq(p.len())]);
    }
}

/// A pattern occurs exactly once in its own permutation, at the positions
/// `0, 1, ..., n - 1`.
pub proof fn lemma_pattern_occurs_once_in_itself(p: Seq<u8>)
    requires
        p.len() <= 255,
    ensures
        occurrences(p, p) == seq![identity_seq(p.len())],
        occurrences(p, p).len() == 1,
{
    assert(identity_seq(0) =~= Seq::<u8>::empty());
    lemma_self_extensions(p, 0);
}

} // verus!
