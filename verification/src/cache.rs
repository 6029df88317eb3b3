//! The table of masks already worked out, one cell for each pair of a
//! guessed word and an answer.

use vstd::prelude::*;
use crate::feedback::{feedback, letters, Correctness};
use crate::packed::{pack, PackedCorrectness};

verus! {

/// What a cell stands for: its own byte once it is filled, and before that
/// the packed mask of `guess` against `answer`.
pub open spec fn resolve(cell: u8, answer: Seq<u8>, guess: Seq<u8>) -> int {
    if cell != 0 {
        cell as int
    } else {
        pack(feedback(answer, guess))
    }
}

/// The mask of `guess` against `answer`, taken from the cell of `answer_idx`
/// in `row` where it is filled, and worked out and stored there where it is not.
pub fn get_packed(row: &mut [u8], guess: &str, answer: &str, answer_idx: usize) -> (packed:
    PackedCorrectness)
    requires
        answer_idx < old(row)@.len(),
        old(row)@[answer_idx as int] <= 243,
        old(row)@[answer_idx as int] == 0 ==> letters(answer@).len() == 5 && letters(
            guess@,
        ).len() == 5,
    ensures
        packed.slot() == resolve(old(row)@[answer_idx as int], letters(answer@), letters(guess@)),
        1 <= packed.slot() <= 243,
        final(row)@ == old(row)@.update(answer_idx as int, packed.slot() as u8),
{
    match PackedCorrectness::from_slot(row[answer_idx]) {
        Some(a) => {
            assert(row@ =~= old(row)@.update(answer_idx as int, a.slot() as u8));
            a
        },
        None => {
            let mask = Correctness::compute(answer, guess);
            let correctness = PackedCorrectness::from(mask);
            proof {
                PackedCorrectness::lemma_of(mask@);
            }
            row[answer_idx] = correctness.to_slot();
            correctness
        },
    }
}

/// The table: as many rows as the word list has words, each as long.
pub struct Cache {
    rows: Vec<Vec<u8>>,
}

impl View for Cache {
    type V = Seq<Seq<u8>>;

    /// The cells, by the guessed word's index and then the answer's.
    closed spec fn view(&self) -> Seq<Seq<u8>> {
        Seq::new(self.rows@.len(), |g: int| self.rows@[g]@)
    }
}

/// A square table of the given side whose cells are 0 or one of the 243 codes.
pub open spec fn table_wf(table: Seq<Seq<u8>>, side: int) -> bool {
    &&& table.len() == side
    &&& forall|g: int| 0 <= g < side ==> (#[trigger] table[g]).len() == side
    &&& forall|g: int, a: int| 0 <= g < side && 0 <= a < side ==> (#[trigger] table[g][a]) <= 243
}

/// Every filled cell holds the packed mask of its pair of words.
pub open spec fn table_agrees(table: Seq<Seq<u8>>, words: Seq<Seq<u8>>) -> bool {
    forall|g: int, a: int|
        0 <= g < words.len() && 0 <= a < words.len() && (#[trigger] table[g][a]) != 0
            ==> table[g][a] == pack(feedback(words[a], words[g]))
}

impl Cache {
    /// An empty table for a list of `side` words.
    pub fn new(side: usize) -> (cache: Cache)
        ensures
            table_wf(cache@, side as int),
            forall|g: int, a: int|
                0 <= g < side && 0 <= a < side ==> (#[trigger] cache@[g][a]) == 0,
    {
        let mut rows: Vec<Vec<u8>> = Vec::new();
        let mut g: usize = 0;
        while g < side
            invariant
                g <= side,
                rows@.len() == g,
                forall|h: int| 0 <= h < g ==> (#[trigger] rows@[h])@.len() == side,
                forall|h: int, a: int| 0 <= h < g && 0 <= a < side ==> (#[trigger] rows@[h]@[a]) == 0,
            decreases side - g,
        {
            let row: Vec<u8> = vec![0u8; side];
            rows.push(row);
            g += 1;
        }
        Cache { rows }
    }

    /// Number of rows.
    pub fn side(&self) -> (side: usize)
        ensures
            side == self@.len(),
    {
        self.rows.len()
    }

    /// The mask of the word at `guess_idx` played as `guess` against the word
    /// at `answer_idx`, which is `answer`: read from the table, or worked out
    /// and stored. No other cell changes.
    pub fn get_or_compute(
        &mut self,
        guess_idx: usize,
        guess: &str,
        answer: &str,
        answer_idx: usize,
    ) -> (packed: PackedCorrectness)
        requires
            table_wf(old(self)@, old(self)@.len() as int),
            guess_idx < old(self)@.len(),
            answer_idx < old(self)@.len(),
            old(self)@[guess_idx as int][answer_idx as int] == 0 ==> letters(answer@).len() == 5
                && letters(guess@).len() == 5,
        ensures
            packed.slot() == resolve(
                old(self)@[guess_idx as int][answer_idx as int],
                letters(answer@),
                letters(guess@),
            ),
            1 <= packed.slot() <= 243,
            final(self)@ == old(self)@.update(
                guess_idx as int,
                old(self)@[guess_idx as int].update(answer_idx as int, packed.slot() as u8),
            ),
            table_wf(final(self)@, old(self)@.len() as int),
    {
        assert(self@[guess_idx as int][answer_idx as int] <= 243);
        let row = &mut self.rows[guess_idx];
        let packed = get_packed(row.as_mut_slice(), guess, answer, answer_idx);
        assert(self@ =~= old(self)@.update(
            guess_idx as int,
            old(self)@[guess_idx as int].update(answer_idx as int, packed.slot() as u8),
        ));
        packed
    }
}

} // verus!
