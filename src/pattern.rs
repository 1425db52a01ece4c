//! Patterns: a permutation together with, for each position, the positions
//! to its left that hold the nearest smaller and nearest larger value.
use vstd::prelude::*;
use crate::perm::{Perm, factorial, unrank};
use std::collections::VecDeque;

verus! {

/// What the search needs to know of one pattern position `k`.
#[derive(Debug, Clone)]
pub struct PattDetails {
    /// The position left of `k` with the largest value below `perm[k]`.
    pub left_floor: Option<u8>,
    /// The position left of `k` with the smallest value above `perm[k]`.
    pub left_ceil: Option<u8>,
    /// `perm[left_ceil] - perm[k]`, or `n - perm[k]` without a ceiling.
    pub upper_bound: u8,
    /// `perm[k] - perm[left_floor]`, or `perm[k]` without a floor.
    pub lower_bound: u8,
}

/// A permutation used as a pattern, with its per-position details.
#[derive(Debug, Clone)]
pub struct Pattern {
    pub perm: Perm,
    pub details: Vec<PattDetails>,
}

/// Among positions `0..upto` of `p`, `f` is the one with the largest value
/// below `v`, or `None` when there is no such value.
pub open spec fn floor_within(p: Seq<u8>, v: u8, upto: int, f: Option<u8>) -> bool {
    match f {
        Some(j) => {
            &&& (j as int) < upto
            &&& p[j as int] < v
            &&& forall|a: int| 0 <= a < upto && #[trigger] p[a] < v ==> p[a] <= p[j as int]
        },
        None => forall|a: int| 0 <= a < upto ==> #[trigger] p[a] >= v,
    }
}

/// Among positions `0..upto` of `p`, `c` is the one with the smallest value
/// above `v`, or `None` when there is no such value.
pub open spec fn ceil_within(p: Seq<u8>, v: u8, upto: int, c: Option<u8>) -> bool {
    match c {
        Some(j) => {
            &&& (j as int) < upto
            &&& p[j as int] > v
            &&& forall|a: int| 0 <= a < upto && #[trigger] p[a] > v ==> p[a] >= p[j as int]
        },
        None => forall|a: int| 0 <= a < upto ==> #[trigger] p[a] <= v,
    }
}

/// `d` describes position `k` of the pattern `p`.
pub open spec fn details_ok(p: Seq<u8>, k: int, d: PattDetails) -> bool {
    &&& floor_within(p, p[k], k, d.left_floor)
    &&& ceil_within(p, p[k], k, d.left_ceil)
    &&& d.lower_bound as int == match d.left_floor {
        Some(j) => p[k] - p[j as int],
        None => p[k] as int,
    }
    &&& d.upper_bound as int == match d.left_ceil {
        Some(j) => p[j as int] - p[k],
        None => p.len() - p[k],
    }
}

/// `s` read from position `c` to its end, then from its start: the order in
/// which a ring turned by `c` holds the entries of `s`.
pub open spec fn rotation(s: Seq<(u8, u8)>, c: int) -> Seq<(u8, u8)> {
    s.subrange(c, s.len() as int) + s.subrange(0, c)
}

/// The ring `q` holds the pair `(p[j], j)` of each position `j < upto`: it is
/// `s`, sorted by value, turned by `c`; pair `j` sits at `s[at[j]]`.
pub open spec fn ring_ok(
    p: Seq<u8>,
    upto: int,
    q: Seq<(u8, u8)>,
    s: Seq<(u8, u8)>,
    c: int,
    at: Seq<int>,
) -> bool {
    &&& 1 <= upto <= p.len()
    &&& s.len() == upto
    &&& 0 <= c < upto
    &&& q == rotation(s, c)
    &&& forall|a: int, b: int| 0 <= a < b < upto ==> (#[trigger] s[a]).0 < (#[trigger] s[b]).0
    &&& forall|a: int|
        0 <= a < upto ==> ((#[trigger] s[a]).1 as int) < upto && s[a].0 == p[s[a].1 as int]
    &&& at.len() == upto
    &&& forall|j: int| 0 <= j < upto ==> 0 <= #[trigger] at[j] < upto && s[at[j]].1 as int == j
}

/// Taking the front of the ring to its back turns it one step further.
proof fn lemma_rotation_step_left(s: Seq<(u8, u8)>, c: int)
    requires
        0 <= c < s.len(),
    ensures
        rotation(s, c)[0] == s[c],
        rotation(s, c).len() == s.len(),
        rotation(s, c).subrange(1, s.len() as int).push(rotation(s, c)[0]) == rotation(
            s,
            if c + 1 == s.len() {
                0
            } else {
                c + 1
            },
        ),
{
    let c2 = if c + 1 == s.len() { 0 } else { c + 1 };
    assert(rotation(s, c).subrange(1, s.len() as int).push(rotation(s, c)[0]) =~= rotation(s, c2));
}

/// Taking the back of the ring to its front turns it one step back.
proof fn lemma_rotation_step_right(s: Seq<(u8, u8)>, c: int)
    requires
        0 <= c < s.len(),
    ensures
        rotation(s, c).len() == s.len(),
        rotation(s, c)[s.len() - 1] == if c == 0 {
            s[s.len() - 1]
        } else {
            s[c - 1]
        },
        seq![rotation(s, c)[s.len() - 1]] + rotation(s, c).subrange(0, s.len() - 1) == rotation(
            s,
            if c == 0 {
                s.len() - 1
            } else {
                c - 1
            },
        ),
{
    let c2 = if c == 0 { s.len() - 1 } else { c - 1 };
    assert(seq![rotation(s, c)[s.len() - 1]] + rotation(s, c).subrange(0, s.len() - 1) =~= rotation(
        s,
        c2,
    ));
}

/// A value strictly between the least and the greatest of a sorted `s`
/// falls between two neighbours of it.
proof fn lemma_split_exists(s: Seq<(u8, u8)>, v: u8)
    requires
        s.len() >= 2,
        forall|a: int, b: int| 0 <= a < b < s.len() ==> (#[trigger] s[a]).0 < (#[trigger] s[b]).0,
        forall|a: int| 0 <= a < s.len() ==> (#[trigger] s[a]).0 != v,
        s[0].0 < v < s[s.len() - 1].0,
    ensures
        exists|g: int| 1 <= g < s.len() && s[g - 1].0 < v && v < (#[trigger] s[g]).0,
    decreases s.len(),
{
    let l = s.len() as int;
    if s[l - 2].0 < v {
        assert(s[l - 2].0 < v && v < s[l - 1].0);
    } else {
        let t = s.drop_last();
        assert(t[0] == s[0]);
        assert(t[l - 2] == s[l - 2]);
        assert(s[l - 2].0 != v);
        lemma_split_exists(t, v);
        let g = choose|g: int| 1 <= g < t.len() && t[g - 1].0 < v && v < (#[trigger] t[g]).0;
        assert(t[g - 1] == s[g - 1] && t[g] == s[g]);
    }
}

/// Where `v` falls between `s[g - 1]` and `s[g]`, those two are its floor and
/// ceiling among the first `upto` positions.
proof fn lemma_ring_neighbours(p: Seq<u8>, upto: int, s: Seq<(u8, u8)>, at: Seq<int>, g: int, v: u8)
    requires
        exists|q: Seq<(u8, u8)>, c: int| ring_ok(p, upto, q, s, c, at),
        0 <= g <= upto,
        g > 0 ==> s[g - 1].0 < v,
        g < upto ==> v < s[g].0,
    ensures
        floor_within(
            p,
            v,
            upto,
            if g > 0 {
                Some(s[g - 1].1)
            } else {
                None
            },
        ),
        ceil_within(
            p,
            v,
            upto,
            if g < upto {
                Some(s[g].1)
            } else {
                None
            },
        ),
{
    assert forall|a: int| 0 <= a < upto implies (p[a] < v ==> g > 0 && p[a] <= s[g - 1].0) && (p[a] > v
        ==> g < upto && p[a] >= s[g].0) && (p[a] <= v ==> g > 0 && p[a] < v) by {
        let x = at[a];
        assert(s[x].0 == p[a]);
        if x < g {
            if x < g - 1 {
                assert(s[x].0 < s[g - 1].0);
            }
        } else {
            if x > g {
                assert(s[g].0 < s[x].0);
            }
        }
    }
    if g > 0 {
        assert(s[g - 1].0 == p[s[g - 1].1 as int]);
    }
    if g < upto {
        assert(s[g].0 == p[s[g].1 as int]);
    }
}

/// Putting the pair of position `upto` into the ring where it belongs keeps
/// the ring in order.
proof fn lemma_ring_insert(
    p: Seq<u8>,
    upto: int,
    q: Seq<(u8, u8)>,
    s: Seq<(u8, u8)>,
    c: int,
    at: Seq<int>,
    g: int,
)
    requires
        ring_ok(p, upto, q, s, c, at),
        upto < p.len(),
        p.len() <= 255,
        0 <= g <= upto,
        g > 0 ==> s[g - 1].0 < p[upto],
        g < upto ==> p[upto] < s[g].0,
        g == c || (g == upto && c == 0),
    ensures
        ({
            let v = (p[upto], upto as u8);
            let s2 = s.insert(g, v);
            let at2 = Seq::new(
                (upto + 1) as nat,
                |j: int|
                    if j == upto {
                        g
                    } else if at[j] < g {
                        at[j]
                    } else {
                        at[j] + 1
                    },
            );
            &&& g == c ==> ring_ok(p, upto + 1, seq![v] + q, s2, c, at2)
            &&& g == upto && c == 0 ==> ring_ok(p, upto + 1, q.push(v), s2, 0, at2)
        }),
{
    let v = (p[upto], upto as u8);
    let s2 = s.insert(g, v);
    let at2 = Seq::new(
        (upto + 1) as nat,
        |j: int|
            if j == upto {
                g
            } else if at[j] < g {
                at[j]
            } else {
                at[j] + 1
            },
    );
    assert forall|a: int, b: int| 0 <= a < b < upto + 1 implies (#[trigger] s2[a]).0 < (#[trigger] s2[b]).0 by {
        if a < g {
            assert(s2[a] == s[a]);
        } else if a > g {
            assert(s2[a] == s[a - 1]);
        }
        if b < g {
            assert(s2[b] == s[b]);
        } else if b > g {
            assert(s2[b] == s[b - 1]);
        }
        if a < g && b > g && g > 0 {
            assert(s[a].0 <= s[g - 1].0);
        }
        if a < g && b == g {
            assert(s[a].0 <= s[g - 1].0);
        }
        if a == g && b > g {
            assert(s[g].0 <= s[b - 1].0);
        }
    }
    assert forall|a: int| 0 <= a < upto + 1 implies ((#[trigger] s2[a]).1 as int) < upto + 1 && s2[a].0
        == p[s2[a].1 as int] by {
        if a < g {
            assert(s2[a] == s[a]);
        } else if a > g {
            assert(s2[a] == s[a - 1]);
        }
    }
    assert forall|j: int| 0 <= j < upto + 1 implies 0 <= #[trigger] at2[j] < upto + 1 && s2[at2[j]].1 as int
        == j by {
        if j < upto {
            let x = at[j];
            if x < g {
                assert(s2[x] == s[x]);
            } else {
                assert(s2[x + 1] == s[x]);
            }
        }
    }
    if g == c {
        assert(seq![v] + q =~= rotation(s2, c));
    }
    if g == upto && c == 0 {
        assert(q.push(v) =~= rotation(s2, 0));
    }
}

impl Pattern {
    /// A well-formed pattern: a permutation and one correct entry of details
    /// per position.
    pub open spec fn wf(&self) -> bool {
        &&& self.perm.wf()
        &&& self.details@.len() == self.perm.n as int
        &&& forall|k: int|
            0 <= k < self.details@.len() ==> details_ok(self.perm.data@, k, #[trigger] self.details@[k])
    }

    /// For each position, the positions of its left floor and left ceiling.
    ///
    /// One pass from left to right keeps every `(value, position)` seen so far
    /// in a ring, sorted by value once read from the right starting point.  A
    /// new value turns the ring until its front and back are the neighbours
    /// of the value, which are then its ceiling and floor, and is put between
    /// them.
    fn left_floor_and_ceil(perm: &Perm) -> (r: Vec<(Option<u8>, Option<u8>)>)
        requires
            perm.wf(),
        ensures
            r@.len() == perm.n as int,
            forall|k: int|
                0 <= k < r@.len() ==> {
                    &&& floor_within(perm.data@, perm.data@[k], k, (#[trigger] r@[k]).0)
                    &&& ceil_within(perm.data@, perm.data@[k], k, r@[k].1)
                },
    {
        let ghost p = perm.data@;
        let n = perm.n as usize;
        let mut deq: VecDeque<(u8, u8)> = VecDeque::new();
        let mut results: Vec<(Option<u8>, Option<u8>)> = Vec::new();
        let mut smallest: u8 = 0;
        let mut biggest: u8 = 0;
        let ghost mut s: Seq<(u8, u8)> = Seq::empty();
        let ghost mut c: int = 0;
        let ghost mut at: Seq<int> = Seq::empty();
        let mut idx: usize = 0;
        while idx < n
            invariant
                idx <= n,
                n == perm.n,
                p == perm.data@,
                perm.wf(),
                results@.len() == idx,
                forall|j: int|
                    0 <= j < idx ==> {
                        &&& floor_within(p, p[j], j, (#[trigger] results@[j]).0)
                        &&& ceil_within(p, p[j], j, results@[j].1)
                    },
                idx == 0 ==> deq@.len() == 0,
                idx > 0 ==> ring_ok(p, idx as int, deq@, s, c, at),
                idx > 0 ==> smallest == s[0].0 && biggest == s[idx - 1].0,
            decreases n - idx,
        {
            let val = perm.data[idx];
            let ghost len = idx as int;
            proof {
                assert forall|a: int| 0 <= a < len implies p[a] != val by {
                    assert(p[a] != p[len]);
                }
            }
            if idx == 0 {
                deq.push_back((val, idx as u8));
                smallest = val;
                biggest = val;
                results.push((None, None));
                proof {
                    s = seq![(val, 0u8)];
                    c = 0;
                    at = seq![0int];
                    assert(deq@ =~= rotation(s, 0));
                }
            } else if val < smallest {
                while deq[0].0 != smallest
                    invariant
                        ring_ok(p, len, deq@, s, c, at),
                        smallest == s[0].0,
                    decreases c,
                {
                    proof {
                        lemma_rotation_step_right(s, c);
                    }
                    let back = deq.pop_back().unwrap();
                    deq.push_front(back);
                    proof {
                        c = if c == 0 { len - 1 } else { c - 1 };
                    }
                }
                proof {
                    lemma_rotation_step_left(s, c);
                    if c != 0 {
                        assert(s[0].0 < s[c].0);
                    }
                    lemma_ring_neighbours(p, len, s, at, 0, val);
                }
                results.push((None, Some(deq[0].1)));
                let ghost q0 = deq@;
                deq.push_front((val, idx as u8));
                smallest = val;
                proof {
                    let g = 0int;
                    lemma_ring_insert(p, len, q0, s, c, at, g);
                    at = Seq::new((len + 1) as nat, |j: int| if j == len { g } else if at[j] < g { at[j] } else { at[j] + 1 });
                    s = s.insert(g, (val, len as u8));
                }
            } else if val > biggest {
                while deq[deq.len() - 1].0 != biggest
                    invariant
                        ring_ok(p, len, deq@, s, c, at),
                        biggest == s[len - 1].0,
                    decreases if c == 0 { 0 } else { len - c },
                {
                    proof {
                        lemma_rotation_step_right(s, c);
                        lemma_rotation_step_left(s, c);
                        if c == 0 {
                            assert(false);
                        }
                    }
                    let front = deq.pop_front().unwrap();
                    deq.push_back(front);
                    proof {
                        c = if c + 1 == len { 0 } else { c + 1 };
                    }
                }
                proof {
                    lemma_rotation_step_right(s, c);
                    if c != 0 {
                        assert(s[c - 1].0 < s[len - 1].0);
                    }
                    lemma_ring_neighbours(p, len, s, at, len, val);
                }
                results.push((Some(deq[deq.len() - 1].1), None));
                let ghost q0 = deq@;
                deq.push_back((val, idx as u8));
                biggest = val;
                proof {
                    let g = len;
                    lemma_ring_insert(p, len, q0, s, c, at, g);
                    at = Seq::new((len + 1) as nat, |j: int| if j == len { g } else if at[j] < g { at[j] } else { at[j] + 1 });
                    s = s.insert(g, (val, len as u8));
                }
            } else {
                proof {
                    lemma_split_exists(s, val);
                }
                let ghost g = choose|g: int| 1 <= g < len && s[g - 1].0 < val && val < (#[trigger] s[g]).0;
                while !(deq[deq.len() - 1].0 <= val && val <= deq[0].0)
                    invariant
                        ring_ok(p, len, deq@, s, c, at),
                        1 <= g < len,
                        s[g - 1].0 < val < s[g].0,
                    decreases if c <= g { g - c } else { len - c + g },
                {
                    proof {
                        lemma_rotation_step_right(s, c);
                        lemma_rotation_step_left(s, c);
                        if c == g {
                            assert(false);
                        }
                        if c > g {
                            assert(s[g].0 <= s[c - 1].0);
                        }
                        if c < g {
                            assert(s[c].0 <= s[g - 1].0);
                        }
                    }
                    let front = deq.pop_front().unwrap();
                    deq.push_back(front);
                    proof {
                        c = if c + 1 == len { 0 } else { c + 1 };
                    }
                }
                proof {
                    lemma_rotation_step_right(s, c);
                    lemma_rotation_step_left(s, c);
                    if c == 0 {
                        assert(s[0].0 < s[g].0);
                        assert(s[g - 1].0 <= s[len - 1].0);
                    }
                    lemma_ring_neighbours(p, len, s, at, c, val);
                }
                results.push((Some(deq[deq.len() - 1].1), Some(deq[0].1)));
                let ghost q0 = deq@;
                deq.push_front((val, idx as u8));
                proof {
                    let g2 = c;
                    lemma_ring_insert(p, len, q0, s, c, at, g2);
                    at = Seq::new((len + 1) as nat, |j: int| if j == len { g2 } else if at[j] < g2 { at[j] } else { at[j] + 1 });
                    s = s.insert(g2, (val, len as u8));
                }
            }
            idx += 1;
        }
        results
    }

    /// Builds the pattern of `perm`, deriving the details of every position.
    pub fn new(perm: Perm) -> (r: Pattern)
        requires
            perm.wf(),
        ensures
            r.wf(),
            r.perm == perm,
    {
        let ghost p = perm.data@;
        let bounds = Pattern::left_floor_and_ceil(&perm);
        let n = perm.n;
        let mut details: Vec<PattDetails> = Vec::new();
        let mut k: usize = 0;
        while k < bounds.len()
            invariant
                k <= bounds@.len(),
                bounds@.len() == n,
                perm.wf(),
                n == perm.n,
                p == perm.data@,
                details@.len() == k,
                forall|j: int|
                    0 <= j < bounds@.len() ==> {
                        &&& floor_within(p, p[j], j, (#[trigger] bounds@[j]).0)
                        &&& ceil_within(p, p[j], j, bounds@[j].1)
                    },
                forall|j: int| 0 <= j < k ==> details_ok(p, j, #[trigger] details@[j]),
            decreases bounds@.len() - k,
        {
            let val = perm.data[k];
            let (floor, ceil) = bounds[k];
            let lower = match floor {
                Some(f) => val - perm.data[f as usize],
                None => val,
            };
            let upper = match ceil {
                Some(c) => perm.data[c as usize] - val,
                None => n - val,
            };
            details.push(PattDetails { left_floor: floor, left_ceil: ceil, upper_bound: upper, lower_bound: lower });
            k += 1;
        }
        Pattern { perm, details }
    }
}

impl Pattern {
    /// The patterns of all `n!` permutations of length `n`, in the order of
    /// `Perm::of_length`.
    pub fn of_length(n: u8) -> (r: Vec<Pattern>)
        ensures
            r@.len() == factorial(n as nat),
            forall|i: int| 0 <= i < r@.len() ==> (#[trigger] r@[i]).wf() && r@[i].perm.n == n,
            forall|i: int|
                0 <= i < r@.len() ==> (#[trigger] r@[i]).perm.data@ == unrank(i as nat, n as nat),
    {
        let mut perms = Perm::of_length(n);
        let ghost all = perms@;
        let mut reversed: Vec<Perm> = Vec::new();
        while perms.len() > 0
            invariant
                perms@.len() + reversed@.len() == all.len(),
                perms@ == all.subrange(0, perms@.len() as int),
                forall|j: int|
                    0 <= j < reversed@.len() ==> #[trigger] reversed@[j] == all[all.len() - 1 - j],
            decreases perms@.len(),
        {
            let perm = perms.pop().unwrap();
            proof {
                assert(perm == all[perms@.len() as int]);
            }
            reversed.push(perm);
            proof {
                assert(perms@ =~= all.subrange(0, perms@.len() as int));
            }
        }
        let mut patterns: Vec<Pattern> = Vec::new();
        while reversed.len() > 0
            invariant
                reversed@.len() + patterns@.len() == all.len(),
                forall|j: int|
                    0 <= j < reversed@.len() ==> #[trigger] reversed@[j] == all[all.len() - 1 - j],
                forall|j: int| 0 <= j < all.len() ==> (#[trigger] all[j]).wf() && all[j].n == n,
                forall|j: int| 0 <= j < all.len() ==> (#[trigger] all[j]).data@ == unrank(j as nat, n as nat),
                forall|j: int|
                    0 <= j < patterns@.len() ==> (#[trigger] patterns@[j]).wf() && patterns@[j].perm
                        == all[j],
            decreases reversed@.len(),
        {
            let perm = reversed.pop().unwrap();
            proof {
                assert(perm == all[patterns@.len() as int]);
            }
            patterns.push(Pattern::new(perm));
        }
        patterns
    }
}

} // verus!
