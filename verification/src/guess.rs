//! One round of play: the word that was tried and the mask that came back.

use std::borrow::Cow;
use vstd::prelude::*;
use crate::feedback::{
    feedback, feedback_at, first_unclaimed, lemma_spare_bounds, lemma_spare_monotone, letters,
    spare, Correctness,
};

verus! {

/// A word that was played, with the mask observed for it.
pub struct Guess<'a> {
    pub word: Cow<'a, str>,
    pub mask: [Correctness; 5],
}

/// What a guess says: the letters that were played and the mask they earned.
pub struct Record {
    pub word: Seq<u8>,
    pub mask: Seq<Correctness>,
}

impl View for Guess<'_> {
    type V = Record;

    open spec fn view(&self) -> Record {
        Record { word: letters(self.word@), mask: self.mask@ }
    }
}

/// The last record of a history, if it has one.
pub open spec fn last_record(history: Seq<Guess>) -> Option<Record> {
    if history.len() == 0 {
        None
    } else {
        Some(history.last()@)
    }
}

/// Whether `used` marks exactly the positions of the answer that stand under
/// their own letter in the guess, or that one of the first `i` letters of the
/// guess has claimed.
spec fn claimed(a: Seq<u8>, g: Seq<u8>, used: Seq<bool>, i: int) -> bool {
    &&& used.len() == 5
    &&& forall|k: int|
        0 <= k < 5 ==> #[trigger] used[k] == (a[k] == g[k] || spare(a, g, a[k], k) < spare(
            g,
            a,
            a[k],
            i,
        ))
}

/// Where the search for a free `letter` ends when `r` of them are claimed.
proof fn lemma_next_claim(a: Seq<u8>, g: Seq<u8>, used: Seq<bool>, letter: u8, r: int, from: int)
    requires
        a.len() == 5,
        g.len() == 5,
        used.len() == 5,
        0 <= from <= 5,
        spare(a, g, letter, from) <= r,
        forall|k: int|
            0 <= k < 5 && a[k] == letter ==> #[trigger] used[k] == (a[k] == g[k] || spare(
                a,
                g,
                letter,
                k,
            ) < r),
    ensures
        ({
            let k = first_unclaimed(a, used, letter, from);
            if r < spare(a, g, letter, 5) {
                from <= k < 5 && a[k] == letter && g[k] != letter && spare(a, g, letter, k) == r
            } else {
                k == 5
            }
        }),
    decreases 5 - from,
{
    if from < 5 {
        assert(spare(a, g, letter, from + 1) == spare(a, g, letter, from) + if a[from] == letter
            && g[from] != letter {
            1int
        } else {
            0int
        });
        if a[from] == letter && !used[from] {
            lemma_spare_monotone(a, g, letter, from + 1, 5);
        } else {
            lemma_next_claim(a, g, used, letter, r, from + 1);
        }
    }
}

/// One step of the second pass keeps `claimed` and decides as `feedback_at` does.
proof fn lemma_claim_step(a: Seq<u8>, g: Seq<u8>, used: Seq<bool>, i: int)
    requires
        a.len() == 5,
        g.len() == 5,
        0 <= i < 5,
        a[i] != g[i],
        claimed(a, g, used, i),
    ensures
        ({
            let k = first_unclaimed(a, used, g[i], 0);
            let after = if k < 5 {
                used.update(k, true)
            } else {
                used
            };
            &&& (k < 5) == (feedback_at(a, g, i) == Correctness::Misplaced)
            &&& claimed(a, g, after, i + 1)
        }),
{
    let c = g[i];
    let r = spare(g, a, c, i);
    lemma_spare_bounds(g, a, c, i);
    lemma_next_claim(a, g, used, c, r, 0);
    let k = first_unclaimed(a, used, c, 0);
    let after = if k < 5 {
        used.update(k, true)
    } else {
        used
    };
    assert forall|k2: int| 0 <= k2 < 5 implies #[trigger] after[k2] == (a[k2] == g[k2] || spare(
        a,
        g,
        a[k2],
        k2,
    ) < spare(g, a, a[k2], i + 1)) by {
        let l = a[k2];
        assert(spare(g, a, l, i + 1) == spare(g, a, l, i) + if g[i] == l && a[i] != l {
            1int
        } else {
            0int
        });
        if l == c && a[k2] != g[k2] {
            lemma_spare_monotone(a, g, c, k2 + 1, 5);
            assert(spare(a, g, c, k2 + 1) == spare(a, g, c, k2) + 1);
            if k < 5 && k2 < k {
                lemma_spare_monotone(a, g, c, k2 + 1, k);
            }
            if k < 5 && k < k2 {
                assert(spare(a, g, c, k + 1) == spare(a, g, c, k) + 1);
                lemma_spare_monotone(a, g, c, k + 1, k2);
            }
        }
    }
}

/// While no letter of the guess has been looked at, only the letters that
/// stand in their place are claimed.
proof fn lemma_claim_start(a: Seq<u8>, g: Seq<u8>, used: Seq<bool>)
    requires
        a.len() == 5,
        g.len() == 5,
        used.len() == 5,
        forall|k: int| 0 <= k < 5 ==> #[trigger] used[k] == (a[k] == g[k]),
    ensures
        claimed(a, g, used, 0),
{
    assert forall|k: int| 0 <= k < 5 implies #[trigger] used[k] == (a[k] == g[k] || spare(
        a,
        g,
        a[k],
        k,
    ) < spare(g, a, a[k], 0)) by {
        lemma_spare_bounds(a, g, a[k], k);
    }
}

impl Guess<'_> {
    /// The word that was played.
    pub fn word(&self) -> (word: &str)
        ensures
            word@ == self.word@,
    {
        match &self.word {
            Cow::Borrowed(borrowed) => borrowed,
            Cow::Owned(owned) => owned.as_str(),
        }
    }

    /// Whether this guess would have earned its mask had `word` been the answer.
    pub fn matches(&self, word: &str) -> (r: bool)
        requires
            letters(word@).len() == 5,
            letters(self.word@).len() == 5,
        ensures
            r == (feedback(letters(word@), letters(self.word@)) == self.mask@),
    {
        let word_bytes = word.as_bytes();
        let guess_bytes = self.word().as_bytes();
        let ghost a = letters(word@);
        let ghost g = letters(self.word@);
        let ghost m = self.mask@;
        let mut used = [false; 5];

        // Check Correct letters
        let mut i: usize = 0;
        while i < 5
            invariant
                i <= 5,
                a == letters(word@),
                g == letters(self.word@),
                m == self.mask@,
                word_bytes@ == a,
                guess_bytes@ == g,
                a.len() == 5,
                g.len() == 5,
                forall|j: int| 0 <= j < i ==> (a[j] == g[j]) == (#[trigger] m[j] == Correctness::Correct),
                forall|k: int| 0 <= k < 5 ==> #[trigger] used@[k] == (k < i && a[k] == g[k]),
            decreases 5 - i,
        {
            if word_bytes[i] == guess_bytes[i] {
                if self.mask[i] != Correctness::Correct {
                    assert(feedback(a, g)[i as int] != m[i as int]);
                    return false;
                }
                used[i] = true;
            } else if self.mask[i] == Correctness::Correct {
                assert(feedback(a, g)[i as int] != m[i as int]);
                return false;
            }
            i += 1;
        }

        proof {
            lemma_claim_start(a, g, used@);
        }
        // Check Misplaced letters
        let mut i: usize = 0;
        while i < 5
            invariant
                i <= 5,
                a == letters(word@),
                g == letters(self.word@),
                m == self.mask@,
                guess_bytes@ == g,
                a.len() == 5,
                g.len() == 5,
                forall|j: int| 0 <= j < 5 ==> (a[j] == g[j]) == (#[trigger] m[j] == Correctness::Correct),
                forall|j: int| 0 <= j < i ==> #[trigger] m[j] == feedback_at(a, g, j),
                claimed(a, g, used@, i as int),
            decreases 5 - i,
        {
            if self.mask[i] != Correctness::Correct {
                proof {
                    lemma_claim_step(a, g, used@, i as int);
                }
                if Correctness::is_misplaced(guess_bytes[i], word, &mut used) != (self.mask[i]
                    == Correctness::Misplaced) {
                    assert(feedback(a, g)[i as int] != m[i as int]);
                    return false;
                }
            } else {
                assert forall|k: int| 0 <= k < 5 implies spare(g, a, a[k], i + 1) == spare(
                    g,
                    a,
                    a[k],
                    i as int,
                ) by {}
            }
            i += 1;
        }

        // The rest will be all correctly Wrong letters
        assert(feedback(a, g) =~= m);
        true
    }
}

} // verus!
