//! The library as a caller sees it: a history of guesses in, advice out.

use std::borrow::Cow;
use vstd::prelude::*;
use vstd::std_specs::convert::FromSpecImpl;
use vstd::string::StringExecFns;
use crate::cache::{table_wf, Cache};
use crate::dictionary::Dictionary;
use crate::feedback::{letters, Correctness};
use crate::guess::{last_record, Guess, Record};
use crate::solver::{admits, advised, next_session, next_table, Advice, Solver};

verus! {

/// The verdict on one letter as callers write it.
#[derive(Debug, Clone, Copy, PartialEq, Eq, Hash, PartialOrd, Ord, Structural)]
pub enum ApiCorrectness {
    /// Green
    Correct,
    /// Yellow
    Misplaced,
    /// Gray
    Wrong,
}

/// The verdict that a caller's verdict stands for.
pub open spec fn verdict_of(api: ApiCorrectness) -> Correctness {
    match api {
        ApiCorrectness::Correct => Correctness::Correct,
        ApiCorrectness::Misplaced => Correctness::Misplaced,
        ApiCorrectness::Wrong => Correctness::Wrong,
    }
}

/// A verdict as callers write it.
pub open spec fn api_verdict_of(c: Correctness) -> ApiCorrectness {
    match c {
        Correctness::Correct => ApiCorrectness::Correct,
        Correctness::Misplaced => ApiCorrectness::Misplaced,
        Correctness::Wrong => ApiCorrectness::Wrong,
    }
}

impl From<ApiCorrectness> for Correctness {
    fn from(api: ApiCorrectness) -> (c: Self) {
        match api {
            ApiCorrectness::Correct => Correctness::Correct,
            ApiCorrectness::Misplaced => Correctness::Misplaced,
            ApiCorrectness::Wrong => Correctness::Wrong,
        }
    }
}

impl FromSpecImpl<ApiCorrectness> for Correctness {
    open spec fn obeys_from_spec() -> bool {
        true
    }

    open spec fn from_spec(api: ApiCorrectness) -> Self {
        verdict_of(api)
    }
}

impl From<Correctness> for ApiCorrectness {
    fn from(c: Correctness) -> (api: Self) {
        match c {
            Correctness::Correct => ApiCorrectness::Correct,
            Correctness::Misplaced => ApiCorrectness::Misplaced,
            Correctness::Wrong => ApiCorrectness::Wrong,
        }
    }
}

impl FromSpecImpl<Correctness> for ApiCorrectness {
    open spec fn obeys_from_spec() -> bool {
        true
    }

    open spec fn from_spec(c: Correctness) -> Self {
        api_verdict_of(c)
    }
}

/// A guess as callers write it.
#[derive(Debug, Clone)]
pub struct ApiGuess {
    pub word: String,
    pub mask: [ApiCorrectness; 5],
}

impl View for ApiGuess {
    type V = Record;

    open spec fn view(&self) -> Record {
        Record {
            word: letters(self.word@),
            mask: Seq::new(5, |i: int| verdict_of(self.mask@[i])),
        }
    }
}

impl ApiGuess {
    /// The same guess as the solver takes it.
    pub fn to_guess(&self) -> (guess: Guess<'static>)
        ensures
            guess@ == self@,
            guess.word@ == self.word@,
    {
        let mask = [
            Correctness::from(self.mask[0]),
            Correctness::from(self.mask[1]),
            Correctness::from(self.mask[2]),
            Correctness::from(self.mask[3]),
            Correctness::from(self.mask[4]),
        ];
        assert(mask@ =~= self@.mask);
        Guess { word: Cow::Owned(self.word.clone()), mask }
    }
}

/// The last record of a caller's history, if it has one.
pub open spec fn last_api_record(history: Seq<ApiGuess>) -> Option<Record> {
    if history.len() == 0 {
        None
    } else {
        Some(history.last()@)
    }
}

/// The first word of a history is not in the word list.
#[derive(Debug, Clone)]
pub struct UnknownWord {
    pub word: String,
}

impl UnknownWord {
    /// The complaint in words.
    pub fn message(&self) -> (text: String)
        ensures
            text@ == "Word not in dictionary: "@ + self.word@,
    {
        String::from_str("Word not in dictionary: ").concat(self.word.as_str())
    }
}

/// Whether a history is turned away: its first word is not in the list.
pub open spec fn is_unknown(words: Seq<Seq<u8>>, history: Seq<ApiGuess>) -> bool {
    history.len() > 0 && !words.contains(history[0]@.word)
}

/// Takes a caller's history in and says what to play next, unless the first
/// word of the history is not in the list: then nothing changes.
pub fn play(
    solver: &mut Solver,
    dict: &Dictionary,
    cache: &mut Cache,
    history: Vec<ApiGuess>,
) -> (advice: Result<Advice, UnknownWord>)
    requires
        old(solver).wf(),
        dict.wf(),
        old(solver).size() == dict@.len(),
        table_wf(old(cache)@, dict@.len() as int),
        !is_unknown(dict@, history@) ==> admits(
            old(solver)@,
            old(cache)@,
            dict@,
            last_api_record(history@),
        ),
    ensures
        match advice {
            Err(e) => is_unknown(dict@, history@) && e.word@ == history@[0].word@ && final(solver)@
                == old(solver)@ && final(cache)@ == old(cache)@,
            Ok(a) => !is_unknown(dict@, history@) && a == advised(
                old(solver)@,
                old(cache)@,
                dict@,
                last_api_record(history@),
            ) && final(solver)@ == next_session(
                old(solver)@,
                old(cache)@,
                dict@,
                last_api_record(history@),
            ) && final(cache)@ == next_table(
                old(solver)@,
                old(cache)@,
                dict@,
                last_api_record(history@),
            ),
        },
        final(solver).size() == old(solver).size(),
        final(solver).wf(),
        table_wf(final(cache)@, dict@.len() as int),
{
    if history.len() > 0 && !dict.contains(history[0].word.as_str()) {
        return Err(UnknownWord { word: history[0].word.clone() });
    }
    // Convert ApiGuess to internal Guess
    let mut internal_history: Vec<Guess> = Vec::new();
    let mut i: usize = 0;
    while i < history.len()
        invariant
            i <= history@.len(),
            internal_history@.len() == i,
            forall|j: int| 0 <= j < i ==> (#[trigger] internal_history@[j])@ == history@[j]@,
        decreases history@.len() - i,
    {
        internal_history.push(history[i].to_guess());
        i += 1;
    }
    assert(last_record(internal_history@) == last_api_record(history@));
    Ok(solver.guess(dict, cache, internal_history.as_slice()))
}

} // verus!
