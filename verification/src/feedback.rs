//! The feedback that a guess earns against a secret answer.

use vstd::prelude::*;
use vstd::utf8::encode_utf8;

verus! {

/// The verdict on one letter of a guess.
#[derive(Debug, Clone, Copy, PartialEq, Eq, Hash, PartialOrd, Ord, Structural)]
pub enum Correctness {
    /// Green
    Correct,
    /// Yellow
    Misplaced,
    /// Gray
    Wrong,
}

/// The bytes of a word, one per letter where the word is ASCII.
pub open spec fn letters(word: Seq<char>) -> Seq<u8> {
    encode_utf8(word)
}

/// How many of the first `n` positions hold `letter` in `a` and another letter in `b`.
pub open spec fn spare(a: Seq<u8>, b: Seq<u8>, letter: u8, n: int) -> int
    decreases n,
{
    if n <= 0 {
        0
    } else {
        spare(a, b, letter, n - 1) + if a[n - 1] == letter && b[n - 1] != letter {
            1int
        } else {
            0int
        }
    }
}

/// The verdict on position `i` of `guess` when `answer` is the secret.
///
/// A letter that stands where the answer has it is `Correct`. Any other letter
/// is `Misplaced` as long as the answer still has an occurrence of it that no
/// `Correct` letter and no earlier letter of the guess has claimed, and `Wrong`
/// once they are used up.
pub open spec fn feedback_at(answer: Seq<u8>, guess: Seq<u8>, i: int) -> Correctness {
    if answer[i] == guess[i] {
        Correctness::Correct
    } else if spare(guess, answer, guess[i], i) < spare(answer, guess, guess[i], 5) {
        Correctness::Misplaced
    } else {
        Correctness::Wrong
    }
}

/// The whole mask of `guess` against `answer`, both five bytes long.
pub open spec fn feedback(answer: Seq<u8>, guess: Seq<u8>) -> Seq<Correctness> {
    Seq::new(5, |i: int| feedback_at(answer, guess, i))
}

/// The first position from `from` on where `answer` holds `letter` and `used`
/// does not mark it, or the length of `answer` where there is none.
pub open spec fn first_unclaimed(answer: Seq<u8>, used: Seq<bool>, letter: u8, from: int) -> int
    decreases answer.len() - from,
{
    if from >= answer.len() {
        answer.len() as int
    } else if answer[from] == letter && !used[from] {
        from
    } else {
        first_unclaimed(answer, used, letter, from + 1)
    }
}

/// What the counter of `letter` holds once the second pass has reached position `i`.
spec fn left_over(answer: Seq<u8>, guess: Seq<u8>, letter: u8, i: int) -> int {
    let have = spare(answer, guess, letter, 5);
    let taken = spare(guess, answer, letter, i);
    if taken < have {
        have - taken
    } else {
        0
    }
}

/// `spare` counts positions: it is neither negative nor more than `n`.
pub proof fn lemma_spare_bounds(a: Seq<u8>, b: Seq<u8>, letter: u8, n: int)
    ensures
        0 <= spare(a, b, letter, n),
        n >= 0 ==> spare(a, b, letter, n) <= n,
    decreases n,
{
    if n > 0 {
        lemma_spare_bounds(a, b, letter, n - 1);
    }
}

/// `spare` never shrinks as more positions are counted.
pub proof fn lemma_spare_monotone(a: Seq<u8>, b: Seq<u8>, letter: u8, m: int, n: int)
    requires
        m <= n,
    ensures
        spare(a, b, letter, m) <= spare(a, b, letter, n),
    decreases n - m,
{
    if m < n {
        lemma_spare_monotone(a, b, letter, m, n - 1);
    } else {
        lemma_spare_bounds(a, b, letter, n);
        if m < 0 {
            assert(spare(a, b, letter, m) == 0);
        }
    }
}

/// How many of the first `n` positions of `word` hold `letter`.
pub open spec fn occurrences(word: Seq<u8>, letter: u8, n: int) -> int
    decreases n,
{
    if n <= 0 {
        0
    } else {
        occurrences(word, letter, n - 1) + if word[n - 1] == letter {
            1int
        } else {
            0int
        }
    }
}

/// How many of the first `n` positions of `guess` hold `letter` and are
/// marked `Correct` or `Misplaced` in `mask`.
pub open spec fn credited(mask: Seq<Correctness>, guess: Seq<u8>, letter: u8, n: int) -> int
    decreases n,
{
    if n <= 0 {
        0
    } else {
        credited(mask, guess, letter, n - 1) + if guess[n - 1] == letter && mask[n - 1]
            != Correctness::Wrong {
            1int
        } else {
            0int
        }
    }
}

/// A word guessed against itself is all `Correct`.
pub proof fn lemma_feedback_of_answer(word: Seq<u8>)
    ensures
        feedback(word, word) == Seq::new(5, |i: int| Correctness::Correct),
{
    assert(feedback(word, word) =~= Seq::new(5, |i: int| Correctness::Correct));
}

/// The credit that the first `n` letters of the guess earn for `letter` is the
/// number of them that stand in their place plus the claims made so far.
proof fn lemma_credit_split(answer: Seq<u8>, guess: Seq<u8>, letter: u8, n: int)
    requires
        0 <= n <= 5,
    ensures
        credited(feedback(answer, guess), guess, letter, n) + spare(answer, guess, letter, n)
            == occurrences(answer, letter, n) + if spare(guess, answer, letter, n) < spare(
            answer,
            guess,
            letter,
            5,
        ) {
            spare(guess, answer, letter, n)
        } else {
            spare(answer, guess, letter, 5)
        },
    decreases n,
{
    lemma_spare_bounds(answer, guess, letter, 5);
    if n > 0 {
        lemma_credit_split(answer, guess, letter, n - 1);
        assert(feedback(answer, guess)[n - 1] == feedback_at(answer, guess, n - 1));
    }
}

/// No letter is marked `Correct` or `Misplaced` more often than the answer holds it.
pub proof fn lemma_credit_bounded(answer: Seq<u8>, guess: Seq<u8>, letter: u8)
    ensures
        credited(feedback(answer, guess), guess, letter, 5) <= occurrences(answer, letter, 5),
{
    lemma_credit_split(answer, guess, letter, 5);
}

impl Correctness {
    /// Claims the first occurrence of `letter` in `answer` that `used` leaves free,
    /// and tells whether there was one.
    pub fn is_misplaced(letter: u8, answer: &str, used: &mut [bool; 5]) -> (found: bool)
        requires
            letters(answer@).len() <= 5,
        ensures
            ({
                let k = first_unclaimed(letters(answer@), old(used)@, letter, 0);
                &&& found == (k < letters(answer@).len())
                &&& final(used)@ == if found {
                    old(used)@.update(k, true)
                } else {
                    old(used)@
                }
            }),
    {
        let answer_bytes = answer.as_bytes();
        let ghost a = letters(answer@);
        let mut i: usize = 0;
        while i < answer_bytes.len()
            invariant
                i <= a.len() <= 5,
                a == letters(answer@),
                answer_bytes@ == a,
                used@ == old(used)@,
                first_unclaimed(a, old(used)@, letter, 0) == first_unclaimed(
                    a,
                    old(used)@,
                    letter,
                    i as int,
                ),
            decreases a.len() - i,
        {
            if answer_bytes[i] == letter && !used[i] {
                assert(first_unclaimed(a, old(used)@, letter, i as int) == i);
                used[i] = true;
                assert(used@ =~= old(used)@.update(i as int, true));
                return true;
            }
            i += 1;
        }
        false
    }

    /// Computes the mask that `guess` earns when `answer` is the secret.
    pub fn compute(answer: &str, guess: &str) -> (mask: [Correctness; 5])
        requires
            letters(answer@).len() == 5,
            letters(guess@).len() == 5,
        ensures
            mask@ == feedback(letters(answer@), letters(guess@)),
    {
        let mut c = [Correctness::Wrong; 5];
        let answer_bytes = answer.as_bytes();
        let guess_bytes = guess.as_bytes();
        let ghost a = letters(answer@);
        let ghost g = letters(guess@);
        // Indexed by the letter's byte.
        let mut misplaced = [0u8; 256];

        // Find all correct letters
        let mut i: usize = 0;
        while i < 5
            invariant
                i <= 5,
                answer_bytes@ == a,
                guess_bytes@ == g,
                a.len() == 5,
                g.len() == 5,
                forall|l: u8| #[trigger] misplaced@[l as int] == spare(a, g, l, i as int),
                forall|j: int|
                    0 <= j < 5 ==> #[trigger] c@[j] == if j < i && a[j] == g[j] {
                        Correctness::Correct
                    } else {
                        Correctness::Wrong
                    },
            decreases 5 - i,
        {
            let answer_letter = answer_bytes[i];
            if answer_letter == guess_bytes[i] {
                c[i] = Correctness::Correct;
            } else {
                // If the letter does not match, count it as misplaced
                proof {
                    lemma_spare_bounds(a, g, answer_letter, i as int);
                }
                misplaced[answer_letter as usize] += 1;
            }
            i += 1;
        }
        // Check all of the non matching letters if they are misplaced
        let mut i: usize = 0;
        while i < 5
            invariant
                i <= 5,
                guess_bytes@ == g,
                a.len() == 5,
                g.len() == 5,
                forall|l: u8| #[trigger] misplaced@[l as int] == left_over(a, g, l, i as int),
                forall|j: int|
                    0 <= j < 5 ==> #[trigger] c@[j] == if j < i {
                        feedback_at(a, g, j)
                    } else if a[j] == g[j] {
                        Correctness::Correct
                    } else {
                        Correctness::Wrong
                    },
            decreases 5 - i,
        {
            let guess_letter = guess_bytes[i];
            // If the letter was guessed wrong and the same letter was counted as misplaced
            if c[i] == Correctness::Wrong && misplaced[guess_letter as usize] > 0 {
                c[i] = Correctness::Misplaced;
                misplaced[guess_letter as usize] -= 1;
            }
            i += 1;
        }

        assert(c@ =~= feedback(a, g));
        c
    }
}

} // verus!
