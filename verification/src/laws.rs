//! What holds of a session from one guess to the next.

use vstd::prelude::*;
use crate::cache::{resolve, table_agrees, table_wf};
use crate::dictionary::{lemma_position_from, position_from};
use crate::feedback::{feedback, letters};
use crate::guess::Record;
use crate::packed::{lemma_pack_range, lemma_unpack_pack, pack};
use crate::solver::{
    admits, advised, filled, holds, keeps, next_pool, next_session, next_table, row_of,
    session_wf, Advice, Session, FIRST_GUESS,
};

verus! {

/// A filter that every element passes changes nothing.
pub proof fn lemma_filter_all(s: Seq<usize>, pred: spec_fn(usize) -> bool)
    requires
        forall|i: int| 0 <= i < s.len() ==> pred(#[trigger] s[i]),
    ensures
        s.filter(pred) == s,
    decreases s.len(),
{
    reveal(Seq::filter);
    if s.len() > 0 {
        lemma_filter_all(s.drop_last(), pred);
        assert(s.drop_last().push(s.last()) =~= s);
    }
}

/// What passed a filter passes it, and was there before.
pub proof fn lemma_filter_member(s: Seq<usize>, pred: spec_fn(usize) -> bool, i: int)
    requires
        0 <= i < s.filter(pred).len(),
    ensures
        pred(s.filter(pred)[i]),
        holds(s, s.filter(pred)[i] as int),
{
    s.lemma_filter_pred(pred, i);
    let x = s.filter(pred)[i];
    assert(s.filter(pred).contains(x));
    s.lemma_filter_contains_rev(pred, x);
    let k = choose|k: int| 0 <= k < s.len() && s[k] == x;
    assert(s[k] == x as int);
}

/// Two filters that agree on every element keep the same.
pub proof fn lemma_filter_agree(
    s: Seq<usize>,
    p: spec_fn(usize) -> bool,
    q: spec_fn(usize) -> bool,
)
    requires
        forall|i: int| 0 <= i < s.len() ==> p(#[trigger] s[i]) == q(s[i]),
    ensures
        s.filter(p) == s.filter(q),
    decreases s.len(),
{
    reveal(Seq::filter);
    if s.len() > 0 {
        lemma_filter_agree(s.drop_last(), p, q);
    }
}

/// Once the cells of the candidates are filled, they read as they did when
/// they were worked out: the same candidates are kept, and nothing is left to fill.
pub proof fn lemma_filled_reads_same(
    s: Session,
    table: Seq<Seq<u8>>,
    words: Seq<Seq<u8>>,
    r: Record,
)
    requires
        session_wf(s, words.len() as int),
        table_wf(table, words.len() as int),
        words.len() > 0,
    ensures
        ({
            let after = next_table(s, table, words, Some(r));
            &&& next_pool(s, after, words, Some(r)) == next_pool(s, table, words, Some(r))
            &&& next_table(s, after, words, Some(r)) == after
        }),
{
    lemma_position_from(words, r.word, 0);
    let w = row_of(words, r.word, s.last);
    let row = table[w];
    let again = filled(row, s.pool, words, r.word);
    let after = next_table(s, table, words, Some(r));
    assert(after[w] == again);
    assert forall|a: int| 0 <= a < again.len() && holds(s.pool, a) implies resolve(
        #[trigger] again[a],
        words[a],
        r.word,
    ) == resolve(row[a], words[a], r.word) && again[a] == resolve(row[a], words[a], r.word) by {
        lemma_pack_range(feedback(words[a], r.word));
    }
    let p = keeps(again, words, r.word, pack(r.mask));
    let q = keeps(row, words, r.word, pack(r.mask));
    assert forall|i: int| 0 <= i < s.pool.len() implies p(#[trigger] s.pool[i]) == q(
        s.pool[i],
    ) by {
        let a = s.pool[i];
        assert(holds(s.pool, a as int));
        assert(again[a as int] == resolve(row[a as int], words[a as int], r.word));
    }
    lemma_filter_agree(s.pool, p, q);
    assert(filled(again, s.pool, words, r.word) =~= again);
    assert(after.update(w, again) =~= after);
}

/// Taking a guess in never adds a candidate: the new pool is part of the old one.
pub proof fn lemma_pool_shrinks(
    s: Session,
    table: Seq<Seq<u8>>,
    words: Seq<Seq<u8>>,
    last: Option<Record>,
)
    ensures
        next_pool(s, table, words, last).len() <= s.pool.len(),
        forall|i: int|
            0 <= i < next_pool(s, table, words, last).len() ==> holds(
                s.pool,
                #[trigger] next_pool(s, table, words, last)[i] as int,
            ),
{
    match last {
        None => {
            assert forall|i: int| 0 <= i < s.pool.len() implies holds(
                s.pool,
                #[trigger] s.pool[i] as int,
            ) by {
                assert(s.pool[i] == s.pool[i] as int);
            }
        },
        Some(r) => {
            let pred = keeps(table[row_of(words, r.word, s.last)], words, r.word, pack(r.mask));
            s.pool.lemma_filter_len(pred);
            assert forall|i: int| 0 <= i < s.pool.filter(pred).len() implies holds(
                s.pool,
                #[trigger] s.pool.filter(pred)[i] as int,
            ) by {
                lemma_filter_member(s.pool, pred, i);
            }
        },
    }
}

/// Taking the same history in twice gives the same advice as taking it in
/// once, and leaves the session as it was after the first time.
///
/// The history is one that can be taken in. Where the list holds its last
/// word, no more is asked. Where it does not, the second reading goes to the
/// row of the word advised the first time; so where a single candidate was
/// left, the law asks that this row, too, lets the candidate through.
pub proof fn lemma_guess_twice(
    s: Session,
    table: Seq<Seq<u8>>,
    words: Seq<Seq<u8>>,
    last: Option<Record>,
)
    requires
        session_wf(s, words.len() as int),
        table_wf(table, words.len() as int),
        admits(s, table, words, last),
        last matches Some(r) ==> position_from(words, r.word, 0) < words.len() || next_pool(
            s,
            table,
            words,
            last,
        ).len() != 1 || keeps(
            next_table(s, table, words, last)[next_pool(s, table, words, last)[0] as int],
            words,
            r.word,
            pack(r.mask),
        )(next_pool(s, table, words, last)[0]),
    ensures
        ({
            let once = next_session(s, table, words, last);
            let filled_once = next_table(s, table, words, last);
            &&& admits(once, filled_once, words, last)
            &&& advised(once, filled_once, words, last) == advised(s, table, words, last)
            &&& next_session(once, filled_once, words, last) == once
        }),
{
    let once = next_session(s, table, words, last);
    let filled_once = next_table(s, table, words, last);
    match last {
        None => {},
        Some(r) => {
            lemma_position_from(words, r.word, 0);
            let w = row_of(words, r.word, s.last);
            let reference = pack(r.mask);
            s.pool.lemma_filter_len(keeps(table[w], words, r.word, reference));
            assert(s.pool[0] < words.len());
            if row_of(words, r.word, once.last) == w {
                lemma_filled_reads_same(s, table, words, r);
                let pred = keeps(table[w], words, r.word, reference);
                let pred_again = keeps(filled_once[w], words, r.word, reference);
                assert(s.pool.filter(pred_again) == once.pool);
                assert forall|i: int| 0 <= i < once.pool.len() implies pred_again(
                    #[trigger] once.pool[i],
                ) by {
                    s.pool.lemma_filter_pred(pred_again, i);
                }
                lemma_filter_all(once.pool, pred_again);
            } else {
                let c = once.pool[0];
                lemma_filter_all(once.pool, keeps(filled_once[c as int], words, r.word, reference));
            }
        },
    }
}

/// Taking the same history in twice leaves the table as it was after the
/// first time, where both readings go to the same row: the list holds the last
/// word, or more than one candidate is left, or the one left stands in that row.
pub proof fn lemma_guess_twice_fills_once(
    s: Session,
    table: Seq<Seq<u8>>,
    words: Seq<Seq<u8>>,
    last: Option<Record>,
)
    requires
        session_wf(s, words.len() as int),
        table_wf(table, words.len() as int),
        admits(s, table, words, last),
        last matches Some(r) ==> position_from(words, r.word, 0) < words.len() || next_pool(
            s,
            table,
            words,
            last,
        ).len() != 1 || next_pool(s, table, words, last)[0] == row_of(words, r.word, s.last),
    ensures
        ({
            let once = next_session(s, table, words, last);
            let filled_once = next_table(s, table, words, last);
            next_table(once, filled_once, words, last) == filled_once
        }),
{
    let once = next_session(s, table, words, last);
    let filled_once = next_table(s, table, words, last);
    match last {
        None => {},
        Some(r) => {
            lemma_position_from(words, r.word, 0);
            let w = row_of(words, r.word, s.last);
            assert(row_of(words, r.word, once.last) == w);
            s.pool.lemma_filter_len(keeps(table[w], words, r.word, pack(r.mask)));
            assert(s.pool[0] < words.len());
            let row = table[w];
            let pred = keeps(row, words, r.word, pack(r.mask));
            let again = filled(row, s.pool, words, r.word);
            assert(filled_once[w] == again);
            assert forall|a: int| 0 <= a < again.len() && holds(s.pool, a) implies again[a]
                == resolve(#[trigger] again[a], words[a], r.word) by {
                lemma_pack_range(feedback(words[a], r.word));
            }
            assert(filled(again, once.pool, words, r.word) =~= again) by {
                assert forall|a: int| 0 <= a < again.len() && holds(once.pool, a) implies holds(
                    s.pool,
                    a,
                ) by {
                    let i = choose|i: int|
                        0 <= i < once.pool.len() && #[trigger] once.pool[i] == a;
                    lemma_filter_member(s.pool, pred, i);
                }
            }
            assert(filled_once.update(w, again) =~= filled_once);
        },
    }
}

/// Without a history the advice is the opening word and its index in the
/// list is remembered, whatever the candidates are; candidates, mode and
/// table stay as they are.
pub proof fn lemma_opening_advice(s: Session, table: Seq<Seq<u8>>, words: Seq<Seq<u8>>)
    requires
        admits(s, table, words, None),
    ensures
        ({
            let k = position_from(words, letters(FIRST_GUESS@), 0);
            &&& 0 <= k < words.len()
            &&& words[k] == letters(FIRST_GUESS@)
            &&& forall|j: int| 0 <= j < k ==> words[j] != letters(FIRST_GUESS@)
            &&& advised(s, table, words, None) == Advice::Certain(k as usize)
            &&& next_session(s, table, words, None) == (Session {
                pool: s.pool,
                hard_mode: s.hard_mode,
                last: Some(k as usize),
                size: s.size,
            })
            &&& next_table(s, table, words, None) == table
        }),
{
    lemma_position_from(words, letters(FIRST_GUESS@), 0);
}

/// Once a single candidate is left, a further record that it agrees with
/// leaves it alone in the pool, and the advice is that word.
pub proof fn lemma_solved_stays(
    s: Session,
    table: Seq<Seq<u8>>,
    words: Seq<Seq<u8>>,
    r: Record,
)
    requires
        s.pool.len() == 1,
        keeps(table[row_of(words, r.word, s.last)], words, r.word, pack(r.mask))(s.pool[0]),
    ensures
        next_pool(s, table, words, Some(r)) == s.pool,
        advised(s, table, words, Some(r)) == Advice::Certain(s.pool[0]),
{
    lemma_filter_all(
        s.pool,
        keeps(table[row_of(words, r.word, s.last)], words, r.word, pack(r.mask)),
    );
}

/// A candidate that agrees with the last record is still a candidate after
/// the record was taken in: while the secret is among the candidates and the
/// masks are its own, the pool does not run empty.
pub proof fn lemma_secret_survives(
    s: Session,
    table: Seq<Seq<u8>>,
    words: Seq<Seq<u8>>,
    r: Record,
    secret: usize,
)
    requires
        holds(s.pool, secret as int),
        keeps(table[row_of(words, r.word, s.last)], words, r.word, pack(r.mask))(secret),
    ensures
        holds(next_pool(s, table, words, Some(r)), secret as int),
        next_pool(s, table, words, Some(r)).len() > 0,
{
    let pred = keeps(table[row_of(words, r.word, s.last)], words, r.word, pack(r.mask));
    let k = choose|k: int| 0 <= k < s.pool.len() && #[trigger] s.pool[k] == secret as int;
    s.pool.lemma_filter_contains(pred, k);
    let kept = s.pool.filter(pred);
    let i = choose|i: int| 0 <= i < kept.len() && kept[i] == secret;
    assert(kept[i] == secret as int);
}

/// With a table that agrees with the list and a guess that the list holds, a
/// candidate is kept exactly if the guess earns the recorded mask against it.
pub proof fn lemma_keeps_by_feedback(
    table: Seq<Seq<u8>>,
    words: Seq<Seq<u8>>,
    r: Record,
    last: Option<usize>,
    a: usize,
)
    requires
        table_agrees(table, words),
        position_from(words, r.word, 0) < words.len(),
        a < words.len(),
        r.mask.len() == 5,
    ensures
        keeps(table[row_of(words, r.word, last)], words, r.word, pack(r.mask))(a) == (feedback(
            words[a as int],
            r.word,
        ) == r.mask),
{
    lemma_position_from(words, r.word, 0);
    let w = row_of(words, r.word, last);
    assert(words[w] == r.word);
    let cell = table[w][a as int];
    assert(resolve(cell, words[a as int], r.word) == pack(feedback(words[a as int], r.word)));
    lemma_unpack_pack(r.mask);
    lemma_unpack_pack(feedback(words[a as int], r.word));
}

/// A table that agrees with the list still does after a guess that the list holds.
pub proof fn lemma_table_stays_true(
    s: Session,
    table: Seq<Seq<u8>>,
    words: Seq<Seq<u8>>,
    last: Option<Record>,
)
    requires
        table_wf(table, words.len() as int),
        table_agrees(table, words),
        last matches Some(r) ==> position_from(words, r.word, 0) < words.len(),
    ensures
        table_agrees(next_table(s, table, words, last), words),
{
    match last {
        None => {},
        Some(r) => {
            lemma_position_from(words, r.word, 0);
            let w = row_of(words, r.word, s.last);
            let after = next_table(s, table, words, last);
            assert forall|g: int, a: int|
                0 <= g < words.len() && 0 <= a < words.len() && (#[trigger] after[g][a])
                    != 0 implies after[g][a] == pack(feedback(words[a], words[g])) by {
                lemma_pack_range(feedback(words[a], words[g]));
                if g == w {
                    assert(table[g][a] != 0 ==> table[g][a] == pack(feedback(words[a], words[g])));
                } else {
                    assert(after[g][a] == table[g][a]);
                }
            }
        },
    }
}

} // verus!
