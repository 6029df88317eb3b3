//! A session of play: the candidates that are still possible, narrowed by each
//! guess, and the advice on what to play next.

use vstd::prelude::*;
use crate::cache::{resolve, table_wf, Cache};
use crate::dictionary::{position_from, Dictionary};
use crate::feedback::letters;
use crate::guess::{last_record, Guess, Record};
use crate::laws::lemma_filled_reads_same;
use crate::packed::{pack, PackedCorrectness};

verus! {

/// The word that opens every game.
pub const FIRST_GUESS: &'static str = "tares";

/// What to do after a guess was taken in.
#[derive(Debug, Clone, Copy, PartialEq, Eq, Structural)]
pub enum Advice {
    /// Play the word at this index; its score is 0. It is the opening word,
    /// or the only candidate left.
    Certain(usize),
    /// Several candidates are left: the probes are to be scored and ranked.
    Rank,
}

/// What a session holds.
pub struct Session {
    /// The indices of the candidates, in the order of the word list.
    pub pool: Seq<usize>,
    /// Whether only candidates may be suggested.
    pub hard_mode: bool,
    /// The row of the table that the last guess was read from, or the word
    /// that was advised last.
    pub last: Option<usize>,
    /// The number of words in the list that the session was made for.
    pub size: nat,
}

/// The candidates point into a list of `size` words and stand in its order.
pub open spec fn session_wf(s: Session, size: int) -> bool {
    &&& s.size == size
    &&& forall|i: int| 0 <= i < s.pool.len() ==> (#[trigger] s.pool[i]) < size
    &&& forall|i: int, j: int| 0 <= i < j < s.pool.len() ==> s.pool[i] < s.pool[j]
    &&& s.last matches Some(l) ==> l < size
}

/// The row of the table from which the masks of `word` are read: that of the
/// first entry that holds the word, else the one used last, else the first.
pub open spec fn row_of(words: Seq<Seq<u8>>, word: Seq<u8>, last: Option<usize>) -> int {
    let p = position_from(words, word, 0);
    if p < words.len() {
        p
    } else {
        match last {
            Some(l) => l as int,
            None => 0,
        }
    }
}

/// Whether the candidate `a` would have answered `guess` with the mask packed as `reference`,
/// going by `row` where it is filled.
pub open spec fn keeps(row: Seq<u8>, words: Seq<Seq<u8>>, guess: Seq<u8>, reference: int)
    -> spec_fn(usize) -> bool {
    |a: usize| resolve(row[a as int], words[a as int], guess) == reference
}

/// The candidates of `pool` that `keeps` lets through, in their order.
pub open spec fn trimmed(
    pool: Seq<usize>,
    row: Seq<u8>,
    words: Seq<Seq<u8>>,
    guess: Seq<u8>,
    reference: int,
) -> Seq<usize> {
    pool.filter(keeps(row, words, guess, reference))
}

/// Whether `pool` holds the index `a`.
pub open spec fn holds(pool: Seq<usize>, a: int) -> bool {
    exists|k: int| 0 <= k < pool.len() && #[trigger] pool[k] == a
}

/// `row` once the cell of every candidate in `pool` has been filled for `guess`.
pub open spec fn filled(row: Seq<u8>, pool: Seq<usize>, words: Seq<Seq<u8>>, guess: Seq<u8>)
    -> Seq<u8> {
    Seq::new(
        row.len(),
        |a: int|
            if holds(pool, a) {
                resolve(row[a], words[a], guess) as u8
            } else {
                row[a]
            },
    )
}

/// The candidates after the last record of a history was taken in.
pub open spec fn next_pool(
    s: Session,
    table: Seq<Seq<u8>>,
    words: Seq<Seq<u8>>,
    last: Option<Record>,
) -> Seq<usize> {
    match last {
        None => s.pool,
        Some(r) => trimmed(
            s.pool,
            table[row_of(words, r.word, s.last)],
            words,
            r.word,
            pack(r.mask),
        ),
    }
}

/// The table after the last record of a history was taken in.
pub open spec fn next_table(
    s: Session,
    table: Seq<Seq<u8>>,
    words: Seq<Seq<u8>>,
    last: Option<Record>,
) -> Seq<Seq<u8>> {
    match last {
        None => table,
        Some(r) => {
            let w = row_of(words, r.word, s.last);
            table.update(w, filled(table[w], s.pool, words, r.word))
        },
    }
}

/// Whether a history can be taken in. Its last word has five letters and
/// leaves a candidate; with no history, the list holds the opening word.
pub open spec fn admits(
    s: Session,
    table: Seq<Seq<u8>>,
    words: Seq<Seq<u8>>,
    last: Option<Record>,
) -> bool {
    match last {
        Some(r) => r.word.len() == 5 && next_pool(s, table, words, Some(r)).len() > 0,
        None => position_from(words, letters(FIRST_GUESS@), 0) < words.len(),
    }
}

/// The table after it was asked whether a history can be taken in: the cells
/// of the candidates are filled as taking it in would fill them, unless the
/// last word is not five letters long or no candidate is there to ask about.
pub open spec fn asked_table(
    s: Session,
    table: Seq<Seq<u8>>,
    words: Seq<Seq<u8>>,
    last: Option<Record>,
) -> Seq<Seq<u8>> {
    match last {
        Some(r) if r.word.len() == 5 && s.pool.len() > 0 => next_table(s, table, words, last),
        _ => table,
    }
}

/// The advice that a history earns: without a history the opening word, by
/// its index in the list, whatever the candidates are.
pub open spec fn advised(
    s: Session,
    table: Seq<Seq<u8>>,
    words: Seq<Seq<u8>>,
    last: Option<Record>,
) -> Advice {
    let pool = next_pool(s, table, words, last);
    if last is None {
        Advice::Certain(position_from(words, letters(FIRST_GUESS@), 0) as usize)
    } else if pool.len() == 1 {
        Advice::Certain(pool[0])
    } else {
        Advice::Rank
    }
}

/// The session after a history was taken in.
pub open spec fn next_session(
    s: Session,
    table: Seq<Seq<u8>>,
    words: Seq<Seq<u8>>,
    last: Option<Record>,
) -> Session {
    Session {
        pool: next_pool(s, table, words, last),
        size: s.size,
        hard_mode: s.hard_mode,
        last: match advised(s, table, words, last) {
            Advice::Certain(idx) => Some(idx),
            Advice::Rank => Some(row_of(words, last->0.word, s.last) as usize),
        },
    }
}

/// Filtering one element more keeps what was kept, and adds the element if it passes.
pub proof fn lemma_filter_step(s: Seq<usize>, pred: spec_fn(usize) -> bool, i: int)
    requires
        0 <= i < s.len(),
    ensures
        s.take(i + 1).filter(pred) == if pred(s[i]) {
            s.take(i).filter(pred).push(s[i])
        } else {
            s.take(i).filter(pred)
        },
{
    reveal(Seq::filter);
    assert(s.take(i + 1).drop_last() =~= s.take(i));
}

/// Filling for one candidate more changes the cell of that candidate alone.
proof fn lemma_filled_step(
    row: Seq<u8>,
    pool: Seq<usize>,
    words: Seq<Seq<u8>>,
    guess: Seq<u8>,
    i: int,
)
    requires
        0 <= i < pool.len(),
        pool[i] < row.len(),
        forall|j: int, k: int| 0 <= j < k < pool.len() ==> pool[j] < pool[k],
    ensures
        filled(row, pool.take(i), words, guess)[pool[i] as int] == row[pool[i] as int],
        filled(row, pool.take(i + 1), words, guess) == filled(
            row,
            pool.take(i),
            words,
            guess,
        ).update(pool[i] as int, resolve(row[pool[i] as int], words[pool[i] as int], guess) as u8),
{
    let a = pool[i];
    let before = pool.take(i);
    let after = pool.take(i + 1);
    assert(!holds(before, a as int)) by {
        if holds(before, a as int) {
            let k = choose|k: int| 0 <= k < before.len() && #[trigger] before[k] == a as int;
            assert(pool[k] < pool[i]);
        }
    }
    assert(after[i] == a);
    assert forall|x: int| x != a implies holds(before, x) == holds(after, x) by {
        if holds(before, x) {
            let k = choose|k: int| 0 <= k < before.len() && #[trigger] before[k] == x;
            assert(after[k] == x);
        }
        if holds(after, x) {
            let k = choose|k: int| 0 <= k < after.len() && #[trigger] after[k] == x;
            assert(before[k] == x);
        }
    }
    assert(filled(row, after, words, guess) =~= filled(row, before, words, guess).update(
        a as int,
        resolve(row[a as int], words[a as int], guess) as u8,
    ));
}

/// A word whose worth as the next guess is to be scored.
#[derive(Debug, Clone, Copy, PartialEq, Eq, Structural)]
pub struct Probe {
    /// The word's index in the list.
    pub word_idx: usize,
    /// Whether the word is itself a candidate.
    pub in_pool: bool,
}

/// How many candidates are to be among the probes: a third of the pool, but
/// no fewer than 20, and no more than there are.
pub open spec fn stop_after(pool_len: int) -> int {
    let third = pool_len / 3;
    let most = if third > 20 {
        third
    } else {
        20
    };
    if most < pool_len {
        most
    } else {
        pool_len
    }
}

/// The words from which probes are drawn, in order: the candidates in hard
/// mode, the whole list otherwise.
pub open spec fn considered(s: Session, size: int) -> Seq<usize> {
    if s.hard_mode {
        s.pool
    } else {
        Seq::new(size as nat, |i: int| i as usize)
    }
}

/// How many of the first `n` words of `considered` are candidates.
pub open spec fn hits(considered: Seq<usize>, pool: Seq<usize>, n: int) -> int
    decreases n,
{
    if n <= 0 {
        0
    } else {
        hits(considered, pool, n - 1) + if holds(pool, considered[n - 1] as int) {
            1int
        } else {
            0int
        }
    }
}

/// Whether probing ends with the `k`-th word of `considered`: it is a
/// candidate, and with it enough candidates have been probed.
pub open spec fn stops_at(considered: Seq<usize>, pool: Seq<usize>, k: int) -> bool {
    holds(pool, considered[k - 1] as int) && hits(considered, pool, k) >= stop_after(
        pool.len() as int,
    )
}

/// A session of play.
pub struct Solver {
    remaining: Vec<usize>,
    size: usize,
    hard_mode: bool,
    last_guess_idx: Option<usize>,
}

impl View for Solver {
    type V = Session;

    closed spec fn view(&self) -> Session {
        Session {
            pool: self.remaining@,
            hard_mode: self.hard_mode,
            last: self.last_guess_idx,
            size: self.size as nat,
        }
    }
}

impl Solver {
    /// The number of words in the list that the session was made for.
    pub open spec fn size(&self) -> int {
        self@.size as int
    }

    /// The session fits its word list.
    pub open spec fn wf(&self) -> bool {
        session_wf(self@, self.size())
    }

    /// A fresh session over a list of `size` words: every word is a candidate.
    pub fn new(hard_mode: bool, size: usize) -> (solver: Solver)
        ensures
            solver.wf(),
            solver.size() == size,
            solver@ == (Session {
                pool: Seq::new(size as nat, |i: int| i as usize),
                hard_mode,
                last: None,
                size: size as nat,
            }),
    {
        let mut remaining: Vec<usize> = Vec::new();
        let mut i: usize = 0;
        while i < size
            invariant
                i <= size,
                remaining@ == Seq::new(i as nat, |j: int| j as usize),
            decreases size - i,
        {
            remaining.push(i);
            assert(remaining@ =~= Seq::new((i + 1) as nat, |j: int| j as usize));
            i += 1;
        }
        Solver { remaining, size, hard_mode, last_guess_idx: None }
    }
    /// The candidates that would have answered `guess` with the mask
    /// `reference`, going by row `row_idx` of the table, whose empty cells
    /// are filled on the way.
    fn survivors(
        &self,
        dict: &Dictionary,
        cache: &mut Cache,
        row_idx: usize,
        guess: &str,
        reference: PackedCorrectness,
    ) -> (kept: Vec<usize>)
        requires
            self.wf(),
            dict.wf(),
            self.size() == dict@.len(),
            table_wf(old(cache)@, dict@.len() as int),
            row_idx < dict@.len(),
            letters(guess@).len() == 5,
        ensures
            kept@ == trimmed(
                self@.pool,
                old(cache)@[row_idx as int],
                dict@,
                letters(guess@),
                reference.slot(),
            ),
            forall|j: int| 0 <= j < kept@.len() ==> (#[trigger] kept@[j]) < dict@.len(),
            forall|j: int, k: int| 0 <= j < k < kept@.len() ==> kept@[j] < kept@[k],
            final(cache)@ == old(cache)@.update(
                row_idx as int,
                filled(old(cache)@[row_idx as int], self@.pool, dict@, letters(guess@)),
            ),
            table_wf(final(cache)@, dict@.len() as int),
    {
        let ghost pool = self.remaining@;
        assert(pool == self@.pool);
        let ghost table = cache@;
        let ghost row = cache@[row_idx as int];
        let ghost words = dict@;
        let ghost g = letters(guess@);
        let ghost pred = keeps(row, words, g, reference.slot());
        let mut kept: Vec<usize> = Vec::new();
        let mut i: usize = 0;
        proof {
            reveal(Seq::filter);
            assert(pool.take(0).filter(pred) =~= Seq::<usize>::empty());
            assert(filled(row, pool.take(0), words, g) =~= row);
            assert(table.update(row_idx as int, row) =~= table);
        }
        while i < self.remaining.len()
            invariant
                i <= pool.len(),
                pool == self.remaining@,
                words == dict@,
                g == letters(guess@),
                g.len() == 5,
                dict.wf(),
                row_idx < words.len(),
                row == table[row_idx as int],
                row.len() == words.len(),
                table.len() == words.len(),
                pred == keeps(row, words, g, reference.slot()),
                forall|j: int| 0 <= j < pool.len() ==> (#[trigger] pool[j]) < words.len(),
                forall|j: int, k: int| 0 <= j < k < pool.len() ==> pool[j] < pool[k],
                table_wf(cache@, words.len() as int),
                cache@ == table.update(row_idx as int, filled(row, pool.take(i as int), words, g)),
                kept@ == pool.take(i as int).filter(pred),
                forall|j: int|
                    0 <= j < kept@.len() ==> (#[trigger] kept@[j]) < words.len() && (i
                        < pool.len() ==> kept@[j] < pool[i as int]),
                forall|j: int, k: int| 0 <= j < k < kept@.len() ==> kept@[j] < kept@[k],
            decreases pool.len() - i,
        {
            let word_idx = self.remaining[i];
            proof {
                lemma_filter_step(pool, pred, i as int);
                lemma_filled_step(row, pool, words, g, i as int);
            }
            let answer = dict.word(word_idx);
            let ghost before = cache@;
            let packed = cache.get_or_compute(row_idx, guess, answer, word_idx);
            proof {
                assert(before[row_idx as int] == filled(row, pool.take(i as int), words, g));
                assert(packed.slot() == resolve(row[word_idx as int], words[word_idx as int], g));
                assert(cache@ =~= table.update(
                    row_idx as int,
                    filled(row, pool.take(i + 1), words, g),
                ));
                assert(pred(word_idx) == (reference.slot() == packed.slot()));
                reference.lemma_slot_decides(packed);
            }
            if reference == packed {
                kept.push(word_idx);
            }
            i += 1;
        }
        proof {
            assert(pool.take(pool.len() as int) =~= pool);
        }
        kept
    }

    /// Narrows the candidates to those that would have answered `guess` with
    /// the mask `reference`, reading the masks from row `row_idx` of the table
    /// and filling the cells that are still empty.
    pub fn trim(
        &mut self,
        dict: &Dictionary,
        cache: &mut Cache,
        row_idx: usize,
        guess: &str,
        reference: PackedCorrectness,
    )
        requires
            old(self).wf(),
            dict.wf(),
            old(self).size() == dict@.len(),
            table_wf(old(cache)@, dict@.len() as int),
            row_idx < dict@.len(),
            letters(guess@).len() == 5,
        ensures
            final(self)@.pool == trimmed(
                old(self)@.pool,
                old(cache)@[row_idx as int],
                dict@,
                letters(guess@),
                reference.slot(),
            ),
            final(self)@.hard_mode == old(self)@.hard_mode,
            final(self)@.last == old(self)@.last,
            final(self).size() == old(self).size(),
            final(self).wf(),
            final(cache)@ == old(cache)@.update(
                row_idx as int,
                filled(old(cache)@[row_idx as int], old(self)@.pool, dict@, letters(guess@)),
            ),
            table_wf(final(cache)@, dict@.len() as int),
    {
        self.remaining = self.survivors(dict, cache, row_idx, guess, reference);
    }

    /// The row of the table from which the masks of `word` are read.
    fn row_for(&self, dict: &Dictionary, word: &str) -> (row_idx: usize)
        ensures
            row_idx == row_of(dict@, letters(word@), self@.last),
    {
        match dict.position(word) {
            Some(idx) => idx,
            // Not in the list: fall back to the row used last
            None => match self.last_guess_idx {
                Some(idx) => idx,
                None => 0,
            },
        }
    }

    /// Whether `guess` can take `history` in. Answering may fill cells of
    /// the table, which changes nothing that `guess` then does.
    pub fn accepts(&self, dict: &Dictionary, cache: &mut Cache, history: &[Guess]) -> (ok: bool)
        requires
            self.wf(),
            dict.wf(),
            self.size() == dict@.len(),
            table_wf(old(cache)@, dict@.len() as int),
        ensures
            ok == admits(self@, old(cache)@, dict@, last_record(history@)),
            ok ==> admits(self@, final(cache)@, dict@, last_record(history@)),
            ok ==> advised(self@, final(cache)@, dict@, last_record(history@)) == advised(
                self@,
                old(cache)@,
                dict@,
                last_record(history@),
            ),
            ok ==> next_session(self@, final(cache)@, dict@, last_record(history@))
                == next_session(self@, old(cache)@, dict@, last_record(history@)),
            ok ==> next_table(self@, final(cache)@, dict@, last_record(history@)) == next_table(
                self@,
                old(cache)@,
                dict@,
                last_record(history@),
            ),
            final(cache)@ == asked_table(self@, old(cache)@, dict@, last_record(history@)),
            table_wf(final(cache)@, dict@.len() as int),
    {
        if history.len() == 0 {
            return dict.position(FIRST_GUESS).is_some();
        }
        let last = &history[history.len() - 1];
        assert(last_record(history@) == Some(last@));
        proof {
            dict.lemma_wf();
            self@.pool.lemma_filter_len(
                keeps(
                    cache@[row_of(dict@, last@.word, self@.last)],
                    dict@,
                    last@.word,
                    pack(last@.mask),
                ),
            );
        }
        if last.word().as_bytes().len() != 5 || self.remaining.len() == 0 {
            return false;
        }
        assert(self@.pool[0] < dict@.len());
        let row_idx = self.row_for(dict, last.word());
        let reference = PackedCorrectness::from(last.mask);
        proof {
            PackedCorrectness::lemma_of(last.mask@);
            lemma_filled_reads_same(self@, cache@, dict@, last@);
        }
        let kept = self.survivors(dict, cache, row_idx, last.word(), reference);
        kept.len() > 0
    }

    /// Takes `history` in as `guess` does where `guess` can, and else leaves
    /// the session as it is and gives nothing.
    pub fn try_guess(&mut self, dict: &Dictionary, cache: &mut Cache, history: &[Guess]) -> (advice:
        Option<Advice>)
        requires
            old(self).wf(),
            dict.wf(),
            old(self).size() == dict@.len(),
            table_wf(old(cache)@, dict@.len() as int),
        ensures
            advice is Some <==> admits(old(self)@, old(cache)@, dict@, last_record(history@)),
            advice matches Some(a) ==> a == advised(
                old(self)@,
                old(cache)@,
                dict@,
                last_record(history@),
            ) && final(self)@ == next_session(
                old(self)@,
                old(cache)@,
                dict@,
                last_record(history@),
            ) && final(cache)@ == next_table(
                old(self)@,
                old(cache)@,
                dict@,
                last_record(history@),
            ),
            advice is None ==> final(self)@ == old(self)@ && final(cache)@ == asked_table(
                old(self)@,
                old(cache)@,
                dict@,
                last_record(history@),
            ),
            final(self).size() == old(self).size(),
            final(self).wf(),
            table_wf(final(cache)@, dict@.len() as int),
    {
        if !self.accepts(dict, cache, history) {
            return None;
        }
        Some(self.guess(dict, cache, history))
    }

    /// Starts over: every word is a candidate again, in easy mode.
    pub fn reset(&mut self)
        ensures
            final(self).wf(),
            final(self).size() == old(self).size(),
            final(self)@ == (Session {
                pool: Seq::new(old(self).size() as nat, |i: int| i as usize),
                hard_mode: false,
                last: None,
                size: old(self)@.size,
            }),
    {
        *self = Solver::new(false, self.size);
    }

    /// The number of words in the list that the session was made for.
    pub fn word_count(&self) -> (n: usize)
        ensures
            n == self.size(),
    {
        self.size
    }

    /// The candidates' indices, in the order of the word list.
    pub fn remaining(&self) -> (pool: &Vec<usize>)
        ensures
            pool@ == self@.pool,
    {
        &self.remaining
    }

    /// Whether only candidates are probed.
    pub fn hard_mode(&self) -> (hard_mode: bool)
        ensures
            hard_mode == self@.hard_mode,
    {
        self.hard_mode
    }

    /// The row that was read last, or the word that was advised last.
    pub fn last_guess_idx(&self) -> (last: Option<usize>)
        ensures
            last == self@.last,
    {
        self.last_guess_idx
    }

    /// Takes in the last record of `history` and says what to play next.
    ///
    /// With a history, the candidates are narrowed to those that agree with
    /// its last record. The masks are read from the row of the word that was
    /// played; where the list does not hold that word, from the row that was
    /// used or advised last. Without a history the advice is the opening
    /// word, and the candidates stay as they are. The word of a `Certain`
    /// advice is remembered; after `Rank` the row that was read is.
    pub fn guess(&mut self, dict: &Dictionary, cache: &mut Cache, history: &[Guess]) -> (advice:
        Advice)
        requires
            old(self).wf(),
            dict.wf(),
            old(self).size() == dict@.len(),
            table_wf(old(cache)@, dict@.len() as int),
            admits(old(self)@, old(cache)@, dict@, last_record(history@)),
        ensures
            advice == advised(old(self)@, old(cache)@, dict@, last_record(history@)),
            final(self)@ == next_session(old(self)@, old(cache)@, dict@, last_record(history@)),
            final(cache)@ == next_table(old(self)@, old(cache)@, dict@, last_record(history@)),
            final(self).size() == old(self).size(),
            final(self).wf(),
            table_wf(final(cache)@, dict@.len() as int),
    {
        if history.len() == 0 {
            let idx = dict.position(FIRST_GUESS).unwrap();
            self.last_guess_idx = Some(idx);
            return Advice::Certain(idx);
        }
        let last = &history[history.len() - 1];
        proof {
            assert(last_record(history@) == Some(last@));
            old(self)@.pool.lemma_filter_len(
                keeps(
                    old(cache)@[row_of(dict@, last@.word, old(self)@.last)],
                    dict@,
                    last@.word,
                    pack(last@.mask),
                ),
            );
            dict.lemma_wf();
            assert(old(self)@.pool[0] < dict@.len());
        }
        // The row of the word that was actually played
        let word_idx = self.row_for(dict, last.word());
        self.last_guess_idx = Some(word_idx);

        let reference = PackedCorrectness::from(last.mask);
        proof {
            PackedCorrectness::lemma_of(last.mask@);
        }
        self.trim(dict, cache, word_idx, last.word(), reference);

        if self.remaining.len() == 1 {
            let w = self.remaining[0];
            self.last_guess_idx = Some(w);
            return Advice::Certain(w);
        }
        Advice::Rank
    }
    /// The words to score, in order: those considered, up to the candidate
    /// with which enough candidates have been probed, that one being the last.
    pub fn probes(&self) -> (probes: Vec<Probe>)
        requires
            self.wf(),
        ensures
            probes@.len() <= considered(self@, self.size()).len(),
            forall|j: int|
                0 <= j < probes@.len() ==> #[trigger] probes@[j] == (Probe {
                    word_idx: considered(self@, self.size())[j],
                    in_pool: holds(self@.pool, considered(self@, self.size())[j] as int),
                }),
            forall|k: int|
                1 <= k < probes@.len() ==> !stops_at(
                    considered(self@, self.size()),
                    self@.pool,
                    k,
                ),
            probes@.len() < considered(self@, self.size()).len() ==> probes@.len() >= 1
                && stops_at(considered(self@, self.size()), self@.pool, probes@.len() as int),
    {
        let pool_len = self.remaining.len();
        let third = pool_len / 3;
        let most = if third > 20 {
            third
        } else {
            20
        };
        let stop = if most < pool_len {
            most
        } else {
            pool_len
        };
        let ghost pool = self@.pool;
        let ghost c = considered(self@, self.size());
        let mut probes: Vec<Probe> = Vec::new();
        if self.hard_mode {
            let mut i: usize = 0;
            while i < pool_len
                invariant
                    i <= pool_len == pool.len(),
                    pool == self.remaining@,
                    pool == self@.pool,
                    c == considered(self@, self.size()),
                    c == pool,
                    stop == stop_after(pool.len() as int),
                    probes@.len() == i,
                    hits(c, pool, i as int) == i,
                    forall|j: int|
                        0 <= j < i ==> #[trigger] probes@[j] == (Probe {
                            word_idx: c[j],
                            in_pool: holds(pool, c[j] as int),
                        }),
                    forall|k: int| 1 <= k <= i ==> !stops_at(c, pool, k),
                decreases pool_len - i,
            {
                assert(holds(pool, pool[i as int] as int));
                probes.push(Probe { word_idx: self.remaining[i], in_pool: true });
                i += 1;
                if i >= stop {
                    return probes;
                }
            }
        } else {
            let mut p: usize = 0;
            let mut w: usize = 0;
            while w < self.size
                invariant
                    w <= self.size,
                    p <= pool_len == pool.len(),
                    pool == self.remaining@,
                    pool == self@.pool,
                    c == considered(self@, self.size()),
                    c == Seq::new(self.size as nat, |i: int| i as usize),
                    stop == stop_after(pool.len() as int),
                    probes@.len() == w,
                    hits(c, pool, w as int) == p,
                    forall|j: int, k: int| 0 <= j < k < pool.len() ==> pool[j] < pool[k],
                    forall|j: int| 0 <= j < p ==> (#[trigger] pool[j]) < w,
                    forall|j: int| p <= j < pool.len() ==> (#[trigger] pool[j]) >= w,
                    forall|j: int|
                        0 <= j < w ==> #[trigger] probes@[j] == (Probe {
                            word_idx: c[j],
                            in_pool: holds(pool, c[j] as int),
                        }),
                    forall|k: int| 1 <= k <= w ==> !stops_at(c, pool, k),
                decreases self.size - w,
            {
                let in_pool = p < pool_len && self.remaining[p] == w;
                proof {
                    if in_pool {
                        assert(pool[p as int] == w);
                    } else if holds(pool, w as int) {
                        let k = choose|k: int| 0 <= k < pool.len() && #[trigger] pool[k] == w as int;
                        if k > p {
                            assert(pool[p as int] < pool[k]);
                        }
                    }
                    assert(c[w as int] == w);
                }
                probes.push(Probe { word_idx: w, in_pool });
                w += 1;
                if in_pool {
                    p += 1;
                    if p >= stop {
                        return probes;
                    }
                }
            }
        }
        probes
    }

    /// The code, from 0 to 242, of the mask that the word at `word_idx` earns
    /// against each candidate, in the candidates' order. The masks are read
    /// from the table, and the cells that are still empty are filled.
    pub fn patterns(&self, dict: &Dictionary, cache: &mut Cache, word_idx: usize) -> (codes: Vec<u8>)
        requires
            self.wf(),
            dict.wf(),
            self.size() == dict@.len(),
            table_wf(old(cache)@, dict@.len() as int),
            word_idx < dict@.len(),
        ensures
            codes@.len() == self@.pool.len(),
            forall|j: int|
                0 <= j < codes@.len() ==> (#[trigger] codes@[j]) == resolve(
                    old(cache)@[word_idx as int][self@.pool[j] as int],
                    dict@[self@.pool[j] as int],
                    dict@[word_idx as int],
                ) - 1,
            final(cache)@ == old(cache)@.update(
                word_idx as int,
                filled(old(cache)@[word_idx as int], self@.pool, dict@, dict@[word_idx as int]),
            ),
            table_wf(final(cache)@, dict@.len() as int),
    {
        let ghost pool = self.remaining@;
        assert(pool == self@.pool);
        let ghost table = cache@;
        let ghost row = cache@[word_idx as int];
        let ghost words = dict@;
        let word = dict.word(word_idx);
        let ghost g = words[word_idx as int];
        let mut codes: Vec<u8> = Vec::new();
        let mut i: usize = 0;
        proof {
            assert(filled(row, pool.take(0), words, g) =~= row);
            assert(table.update(word_idx as int, row) =~= table);
        }
        while i < self.remaining.len()
            invariant
                i <= pool.len(),
                pool == self.remaining@,
                words == dict@,
                g == letters(word@),
                g == words[word_idx as int],
                g.len() == 5,
                dict.wf(),
                word_idx < words.len(),
                row == table[word_idx as int],
                row.len() == words.len(),
                table.len() == words.len(),
                forall|j: int| 0 <= j < pool.len() ==> (#[trigger] pool[j]) < words.len(),
                forall|j: int, k: int| 0 <= j < k < pool.len() ==> pool[j] < pool[k],
                table_wf(cache@, words.len() as int),
                cache@ == table.update(word_idx as int, filled(row, pool.take(i as int), words, g)),
                codes@.len() == i,
                forall|j: int|
                    0 <= j < i ==> (#[trigger] codes@[j]) == resolve(
                        row[pool[j] as int],
                        words[pool[j] as int],
                        g,
                    ) - 1,
            decreases pool.len() - i,
        {
            let candidate_idx = self.remaining[i];
            proof {
                lemma_filled_step(row, pool, words, g, i as int);
            }
            let candidate = dict.word(candidate_idx);
            let ghost before = cache@;
            let packed = cache.get_or_compute(word_idx, word, candidate, candidate_idx);
            proof {
                assert(before[word_idx as int] == filled(row, pool.take(i as int), words, g));
                assert(packed.slot() == resolve(
                    row[candidate_idx as int],
                    words[candidate_idx as int],
                    g,
                ));
                assert(cache@ =~= table.update(
                    word_idx as int,
                    filled(row, pool.take(i + 1), words, g),
                ));
            }
            codes.push(u8::from(packed));
            i += 1;
        }
        proof {
            assert(pool.take(pool.len() as int) =~= pool);
        }
        codes
    }
}

} // verus!
