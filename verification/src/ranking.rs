//! The best of the scored words.

use vstd::prelude::*;

verus! {

/// How many suggestions are handed out at most.
pub const MAX_SUGGESTIONS: usize = 10;

/// A scored word. `goodness` is an integer that orders the words as their
/// scores do: the higher, the better.
#[derive(Debug, Clone, Copy, PartialEq, Eq, Structural)]
pub struct Candidate {
    pub word_idx: usize,
    pub goodness: u64,
}

/// Whether the candidate at `i` comes before the one at `j`: it is better, or
/// as good and earlier in `s`.
pub open spec fn beats(s: Seq<Candidate>, i: int, j: int) -> bool {
    s[i].goodness > s[j].goodness || (s[i].goodness == s[j].goodness && i < j)
}

/// How many of the first `n` candidates come before the one at `p`.
pub open spec fn standing_among(s: Seq<Candidate>, p: int, n: int) -> int
    decreases n,
{
    if n <= 0 {
        0
    } else {
        standing_among(s, p, n - 1) + if beats(s, n - 1, p) {
            1int
        } else {
            0int
        }
    }
}

/// The place of the candidate at `p` when all are put in order, best first.
pub open spec fn standing(s: Seq<Candidate>, p: int) -> int {
    standing_among(s, p, s.len() as int)
}

/// Whether `c` is the candidate of `s` whose place in the order is `r`.
pub open spec fn is_placed(s: Seq<Candidate>, c: Candidate, r: int) -> bool {
    exists|p: int| 0 <= p < s.len() && #[trigger] standing(s, p) == r && s[p] == c
}

/// The smaller of the number of candidates and the number of suggestions.
pub open spec fn suggestions(n: int) -> int {
    if n < 10 {
        n
    } else {
        10
    }
}

/// `top` holds the best of the first `n` candidates in order, and `pos` says
/// where each of them stands in `s`.
spec fn ranked(s: Seq<Candidate>, n: int, top: Seq<Candidate>, pos: Seq<int>) -> bool {
    &&& top.len() == suggestions(n)
    &&& pos.len() == top.len()
    &&& forall|r: int|
        0 <= r < pos.len() ==> 0 <= #[trigger] pos[r] < n && top[r] == s[pos[r]] && standing_among(
            s,
            pos[r],
            n,
        ) == r
    &&& forall|p: int|
        0 <= p < n && #[trigger] standing_among(s, p, n) < 10 ==> standing_among(s, p, n)
            < pos.len() && pos[standing_among(s, p, n)] == p
    &&& forall|r1: int, r2: int|
        0 <= r1 < r2 < top.len() ==> (#[trigger] top[r1]).goodness >= (#[trigger] top[r2]).goodness
}

/// Nothing stands behind more candidates than there are.
proof fn lemma_standing_bounds(s: Seq<Candidate>, p: int, n: int)
    requires
        0 <= n,
    ensures
        0 <= standing_among(s, p, n) <= n,
        0 <= p < n ==> standing_among(s, p, n) < n,
    decreases n,
{
    if n > 0 {
        lemma_standing_bounds(s, p, n - 1);
        if p < n - 1 {
        } else if p == n - 1 {
            assert(!beats(s, p, p));
        }
    }
}

/// Whoever is beaten by all that beat `a` stands no better than `a`, and
/// worse where one more beats it.
proof fn lemma_standing_order(s: Seq<Candidate>, a: int, b: int, n: int, x: int)
    requires
        0 <= n,
        forall|j: int| 0 <= j < n && beats(s, j, a) ==> beats(s, j, b),
    ensures
        standing_among(s, a, n) <= standing_among(s, b, n),
        0 <= x < n && beats(s, x, b) && !beats(s, x, a) ==> standing_among(s, a, n)
            < standing_among(s, b, n),
    decreases n,
{
    if n > 0 {
        lemma_standing_order(s, a, b, n - 1, x);
    }
}

/// The best ten with `e` put in at place `r0`, if that is among them.
spec fn with_new(top: Seq<Candidate>, r0: int, e: Candidate) -> Seq<Candidate> {
    if r0 >= 10 {
        top
    } else {
        let grown = top.insert(r0, e);
        if grown.len() > 10 {
            grown.take(10)
        } else {
            grown
        }
    }
}

/// Where the best ten stand, with `i` put in at place `r0`.
spec fn with_new_pos(pos: Seq<int>, r0: int, i: int) -> Seq<int> {
    if r0 >= 10 {
        pos
    } else {
        let grown = pos.insert(r0, i);
        if grown.len() > 10 {
            grown.take(10)
        } else {
            grown
        }
    }
}

/// Putting the next candidate in at the first place whose holder is worse
/// keeps the order right.
proof fn lemma_rank_step(s: Seq<Candidate>, i: int, top: Seq<Candidate>, pos: Seq<int>, r0: int)
    requires
        0 <= i < s.len(),
        ranked(s, i, top, pos),
        0 <= r0 <= top.len(),
        forall|r: int| 0 <= r < r0 ==> (#[trigger] top[r]).goodness >= s[i].goodness,
        r0 < top.len() ==> top[r0].goodness < s[i].goodness,
    ensures
        ranked(s, i + 1, with_new(top, r0, s[i]), with_new_pos(pos, r0, i)),
{
    let e = s[i];
    let c = standing_among(s, i, i);
    let top2 = with_new(top, r0, e);
    let pos2 = with_new_pos(pos, r0, i);
    lemma_standing_bounds(s, i, i);
    assert(!beats(s, i, i));
    assert(standing_among(s, i, i + 1) == c);
    // Where the new candidate stands among those before it.
    if r0 < top.len() {
        let q = pos[r0];
        assert(top[r0] == s[q]);
        lemma_standing_order(s, i, q, i, 0);
    }
    if r0 > 0 {
        let q = pos[r0 - 1];
        assert(top[r0 - 1] == s[q]);
        assert(beats(s, q, i));
        assert(!beats(s, q, q));
        lemma_standing_order(s, q, i, i, q);
    }
    assert(r0 < top.len() ==> c == r0);
    assert(r0 == top.len() ==> c >= r0);
    assert(r0 == top.len() && top.len() < 10 ==> c == r0);
    // Where the others stand once it is counted.
    assert forall|r: int| 0 <= r < pos2.len() implies 0 <= #[trigger] pos2[r] < i + 1 && top2[r]
        == s[pos2[r]] && standing_among(s, pos2[r], i + 1) == r by {
        if r0 < 10 && r == r0 {
        } else if r0 < 10 && r > r0 {
            assert(pos2[r] == pos[r - 1]);
            assert(top2[r] == top[r - 1]);
            assert(top[r - 1].goodness <= top[r0].goodness);
        } else {
            assert(pos2[r] == pos[r]);
            assert(top2[r] == top[r]);
            if r < r0 {
                assert(top[r].goodness >= e.goodness);
            }
        }
    }
    assert forall|p: int| 0 <= p < i + 1 && #[trigger] standing_among(s, p, i + 1) < 10 implies
        standing_among(s, p, i + 1) < pos2.len() && pos2[standing_among(s, p, i + 1)] == p by {
        if p < i {
            let st = standing_among(s, p, i);
            lemma_standing_bounds(s, p, i);
            assert(pos[st] == p);
            assert(top[st] == s[p]);
            if beats(s, i, p) {
                if st < r0 {
                    assert(top[st].goodness >= e.goodness);
                }
                assert(pos2[st + 1] == pos[st]);
            } else {
                if r0 < top.len() && st >= r0 {
                    assert(top[st].goodness <= top[r0].goodness);
                }
                assert(pos2[st] == pos[st]);
            }
        }
    }
    assert forall|r1: int, r2: int| 0 <= r1 < r2 < top2.len() implies (#[trigger] top2[r1]).goodness
        >= (#[trigger] top2[r2]).goodness by {
        if r0 < 10 {
            let a = if r1 < r0 {
                r1
            } else {
                r1 - 1
            };
            let b = if r2 < r0 {
                r2
            } else {
                r2 - 1
            };
            if r1 != r0 {
                assert(top2[r1] == top[a]);
            }
            if r2 != r0 {
                assert(top2[r2] == top[b]);
            }
            if r1 == r0 {
                if b > r0 {
                    assert(top[b].goodness <= top[r0].goodness);
                }
            }
        }
    }
}

/// The ten best candidates, best first; of two that are as good, the one
/// that came first in `candidates` stands first.
pub fn rank(candidates: &Vec<Candidate>) -> (top: Vec<Candidate>)
    ensures
        top@.len() == suggestions(candidates@.len() as int),
        forall|p: int|
            0 <= p < candidates@.len() && #[trigger] standing(candidates@, p) < 10 ==> standing(
                candidates@,
                p,
            ) < top@.len() && top@[standing(candidates@, p)] == candidates@[p],
        forall|r: int| 0 <= r < top@.len() ==> is_placed(candidates@, #[trigger] top@[r], r),
        forall|r1: int, r2: int|
            0 <= r1 < r2 < top@.len() ==> (#[trigger] top@[r1]).goodness >= (
            #[trigger] top@[r2]).goodness,
{
    let ghost s = candidates@;
    let mut top: Vec<Candidate> = Vec::new();
    let ghost mut pos: Seq<int> = Seq::empty();
    let mut i: usize = 0;
    while i < candidates.len()
        invariant
            i <= s.len(),
            s == candidates@,
            ranked(s, i as int, top@, pos),
        decreases s.len() - i,
    {
        let e = candidates[i];
        let mut r0: usize = 0;
        while r0 < top.len() && top[r0].goodness >= e.goodness
            invariant
                r0 <= top@.len(),
                forall|r: int| 0 <= r < r0 ==> (#[trigger] top@[r]).goodness >= e.goodness,
            decreases top@.len() - r0,
        {
            r0 += 1;
        }
        proof {
            lemma_rank_step(s, i as int, top@, pos, r0 as int);
            pos = with_new_pos(pos, r0 as int, i as int);
        }
        if r0 < MAX_SUGGESTIONS {
            top.insert(r0, e);
            if top.len() > MAX_SUGGESTIONS {
                top.truncate(MAX_SUGGESTIONS);
            }
        }
        i += 1;
    }
    proof {
        assert forall|r: int| 0 <= r < top@.len() implies is_placed(s, #[trigger] top@[r], r) by {
            let p = pos[r];
            assert(0 <= p < s.len() && standing(s, p) == r && top@[r] == s[p]);
        }
        assert forall|p: int| 0 <= p < s.len() && #[trigger] standing(s, p) < 10 implies standing(
            s,
            p,
        ) < top@.len() && top@[standing(s, p)] == s[p] by {
            let st = standing_among(s, p, s.len() as int);
            lemma_standing_bounds(s, p, s.len() as int);
            assert(pos[st] == p);
        }
    }
    top
}

} // verus!
