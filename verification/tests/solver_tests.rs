use wordle_solver::cache::Cache;
use wordle_solver::dictionary::{Dictionary, Entry};
use wordle_solver::feedback::Correctness;
use wordle_solver::feedback::Correctness::{Correct, Wrong};
use wordle_solver::guess::Guess;
use wordle_solver::packed::PackedCorrectness;
use wordle_solver::solver::{Advice, Probe, Solver, FIRST_GUESS};

fn dictionary(words: &[&str]) -> Dictionary {
    Dictionary::new(words.iter().map(|w| Entry { word: w.to_string(), count: 1 }).collect())
        .unwrap()
}

const SMALL: [&str; 8] =
    ["cares", "tares", "bares", "class", "sassy", "abcde", "eabcd", "pares"];

/// "tares" first, then sixty words without any of its letters but for a
/// leading `t` on every second one.
fn striped() -> Vec<String> {
    let letters = b"bcdfghjklm";
    let mut words = vec!["tares".to_string()];
    for i in 1..=60usize {
        let first = if i % 2 == 0 { 't' } else { 'q' };
        let a = letters[i / 10 % 10] as char;
        let b = letters[i % 10] as char;
        words.push(format!("{first}{a}{b}nn"));
    }
    words
}

fn observed(answer: &str, word: &str) -> Guess<'static> {
    Guess { word: word.to_string().into(), mask: Correctness::compute(answer, word) }
}

#[test]
fn the_opening_word_is_tares() {
    assert_eq!(FIRST_GUESS, "tares");
}

#[test]
fn a_new_session_holds_every_word() {
    let solver = Solver::new(true, 5);
    assert_eq!(solver.remaining(), &vec![0, 1, 2, 3, 4]);
    assert!(solver.hard_mode());
    assert_eq!(solver.last_guess_idx(), None);
    assert_eq!(solver.word_count(), 5);
    assert!(Solver::new(false, 0).remaining().is_empty());
}

#[test]
fn empty_history_gives_the_opening_word() {
    let dict = dictionary(&SMALL);
    let mut cache = Cache::new(dict.len());
    let mut solver = Solver::new(false, dict.len());
    assert!(solver.accepts(&dict, &mut cache, &[]));
    let advice = solver.guess(&dict, &mut cache, &[]);
    assert_eq!(advice, Advice::Certain(1));
    assert_eq!(dict.word(1), FIRST_GUESS);
    assert_eq!(solver.last_guess_idx(), Some(1));
    assert_eq!(solver.remaining().len(), SMALL.len());
}

#[test]
fn empty_history_after_narrowing_still_gives_the_opening_word() {
    let dict = dictionary(&["tares", "class", "sassy"]);
    let mut cache = Cache::new(dict.len());
    let mut solver = Solver::new(true, dict.len());
    let history = vec![observed("sassy", "class")];
    assert_eq!(solver.try_guess(&dict, &mut cache, &history), Some(Advice::Certain(2)));
    assert_eq!(solver.remaining(), &vec![2]);
    assert_eq!(solver.last_guess_idx(), Some(2));
    // The opening word is no candidate any more, and is advised all the same.
    assert!(solver.accepts(&dict, &mut cache, &[]));
    assert_eq!(solver.guess(&dict, &mut cache, &[]), Advice::Certain(0));
    assert_eq!(dict.word(0), FIRST_GUESS);
    assert_eq!(solver.last_guess_idx(), Some(0));
    assert_eq!(solver.remaining(), &vec![2]);
    assert!(solver.hard_mode());
    assert_eq!(solver.word_count(), 3);
    assert_eq!(solver.try_guess(&dict, &mut cache, &[]), Some(Advice::Certain(0)));
    assert_eq!(solver.remaining(), &vec![2]);
}

#[test]
fn empty_history_gives_the_first_of_two_opening_words() {
    let dict = dictionary(&["class", "tares", "sassy", "tares"]);
    let mut cache = Cache::new(dict.len());
    let mut solver = Solver::new(false, dict.len());
    assert_eq!(solver.try_guess(&dict, &mut cache, &[]), Some(Advice::Certain(1)));
    assert_eq!(solver.last_guess_idx(), Some(1));
    assert_eq!(solver.remaining(), &vec![0, 1, 2, 3]);
}

#[test]
fn empty_history_without_the_opening_word_is_not_accepted() {
    let dict = dictionary(&["cares", "bares"]);
    let mut cache = Cache::new(dict.len());
    let mut solver = Solver::new(false, dict.len());
    assert!(!solver.accepts(&dict, &mut cache, &[]));
    assert_eq!(solver.try_guess(&dict, &mut cache, &[]), None);
    assert_eq!(solver.remaining(), &vec![0, 1]);
}

#[test]
fn a_guess_keeps_the_words_that_agree_with_its_mask() {
    let dict = dictionary(&SMALL);
    let mut cache = Cache::new(dict.len());
    let mut solver = Solver::new(false, dict.len());
    let history = vec![observed("cares", "tares")];
    assert_eq!(history[0].mask, [Wrong, Correct, Correct, Correct, Correct]);
    assert_eq!(solver.try_guess(&dict, &mut cache, &history), Some(Advice::Rank));
    // cares, bares, pares
    assert_eq!(solver.remaining(), &vec![0, 2, 7]);
    // The row of the word that was played is remembered.
    assert_eq!(solver.last_guess_idx(), Some(1));
}

#[test]
fn the_pool_only_shrinks() {
    let dict = dictionary(&SMALL);
    let mut cache = Cache::new(dict.len());
    let mut solver = Solver::new(false, dict.len());
    let mut history = Vec::new();
    let mut before = solver.remaining().clone();
    for word in ["tares", "class", "bares"] {
        history.push(observed("pares", word));
        assert!(solver.try_guess(&dict, &mut cache, &history).is_some());
        let after = solver.remaining().clone();
        assert!(after.iter().all(|idx| before.contains(idx)));
        assert!(after.len() <= before.len());
        assert!(after.contains(&7));
        before = after;
    }
    assert_eq!(before, vec![7]);
}

#[test]
fn a_single_candidate_is_advised_with_certainty() {
    let dict = dictionary(&SMALL);
    let mut cache = Cache::new(dict.len());
    let mut solver = Solver::new(false, dict.len());
    let history = vec![observed("sassy", "tares")];
    let advice = solver.try_guess(&dict, &mut cache, &history);
    assert_eq!(advice, Some(Advice::Certain(4)));
    assert_eq!(solver.remaining(), &vec![4]);
    assert_eq!(solver.last_guess_idx(), Some(4));
}

#[test]
fn once_solved_it_stays_solved() {
    let dict = dictionary(&SMALL);
    let mut cache = Cache::new(dict.len());
    let mut solver = Solver::new(false, dict.len());
    let mut history = vec![observed("sassy", "tares")];
    assert_eq!(solver.try_guess(&dict, &mut cache, &history), Some(Advice::Certain(4)));
    for word in ["class", "sassy", "abcde", "sassy"] {
        history.push(observed("sassy", word));
        assert_eq!(solver.try_guess(&dict, &mut cache, &history), Some(Advice::Certain(4)));
        assert_eq!(solver.remaining(), &vec![4]);
    }
}

#[test]
fn the_same_history_twice_gives_the_same_advice() {
    let dict = dictionary(&SMALL);
    let mut cache = Cache::new(dict.len());
    let mut solver = Solver::new(false, dict.len());
    for history in [vec![], vec![observed("bares", "tares")], vec![observed("sassy", "class")]] {
        solver.reset();
        let first = solver.try_guess(&dict, &mut cache, &history);
        let pool = solver.remaining().clone();
        let last = solver.last_guess_idx();
        let second = solver.try_guess(&dict, &mut cache, &history);
        assert!(first.is_some());
        assert_eq!(first, second);
        assert_eq!(solver.remaining(), &pool);
        assert_eq!(solver.last_guess_idx(), last);
    }
}

#[test]
fn a_mask_that_no_candidate_gives_is_not_accepted() {
    let dict = dictionary(&SMALL);
    let mut cache = Cache::new(dict.len());
    let mut solver = Solver::new(false, dict.len());
    let history = vec![Guess { word: "tares".into(), mask: [Wrong; 5] }];
    assert!(!solver.accepts(&dict, &mut cache, &history));
    assert_eq!(solver.try_guess(&dict, &mut cache, &history), None);
    assert_eq!(solver.remaining().len(), SMALL.len());
}

#[test]
fn a_word_of_another_length_is_not_accepted() {
    let dict = dictionary(&SMALL);
    let mut cache = Cache::new(dict.len());
    let mut solver = Solver::new(false, dict.len());
    let history = vec![Guess { word: "tare".into(), mask: [Wrong; 5] }];
    assert_eq!(solver.try_guess(&dict, &mut cache, &history), None);
}

#[test]
fn an_unlisted_word_is_read_from_the_row_used_last() {
    let dict = dictionary(&SMALL);
    let mut cache = Cache::new(dict.len());
    let mut solver = Solver::new(false, dict.len());
    assert_eq!(solver.try_guess(&dict, &mut cache, &[]), Some(Advice::Certain(1)));
    // "zares" is not in the list: row 1 is read, and filled for "zares".
    let history = vec![observed("cares", "zares")];
    assert_eq!(solver.try_guess(&dict, &mut cache, &history), Some(Advice::Rank));
    assert_eq!(solver.remaining(), &vec![0, 1, 2, 7]);
    assert_eq!(solver.last_guess_idx(), Some(1));
    let stored = cache.get_or_compute(1, "tares", "cares", 0);
    assert_eq!(stored.decode(), Correctness::compute("cares", "zares"));
}

#[test]
fn trim_reads_filled_cells_and_fills_the_rest() {
    let dict = dictionary(&SMALL);
    let mut cache = Cache::new(dict.len());
    let mut solver = Solver::new(false, dict.len());
    let all_correct = PackedCorrectness::from([Correct; 5]);
    // Plant a code in the cell of "cares" in the row of "tares".
    let mut planted = Cache::new(dict.len());
    let _ = planted.get_or_compute(1, "cares", "cares", 0);
    solver.trim(&dict, &mut planted, 1, "tares", all_correct);
    assert_eq!(solver.remaining(), &vec![0, 1]);
    solver.reset();
    solver.trim(&dict, &mut cache, 1, "tares", all_correct);
    assert_eq!(solver.remaining(), &vec![1]);
}

#[test]
fn reset_brings_every_word_back() {
    let dict = dictionary(&SMALL);
    let mut cache = Cache::new(dict.len());
    let mut solver = Solver::new(true, dict.len());
    let history = vec![observed("sassy", "tares")];
    assert!(solver.try_guess(&dict, &mut cache, &history).is_some());
    solver.reset();
    assert_eq!(solver.remaining().len(), SMALL.len());
    assert!(!solver.hard_mode());
    assert_eq!(solver.last_guess_idx(), None);
    assert_eq!(solver.word_count(), SMALL.len());
}

#[test]
fn probes_stop_after_a_third_of_a_large_pool() {
    let solver = Solver::new(false, 100);
    let probes = solver.probes();
    assert_eq!(probes.len(), 33);
    assert_eq!(probes[32], Probe { word_idx: 32, in_pool: true });
    assert_eq!(Solver::new(true, 100).probes().len(), 33);
    assert_eq!(Solver::new(false, 61).probes().len(), 20);
}

#[test]
fn probes_stop_after_twenty_of_a_middling_pool() {
    assert_eq!(Solver::new(false, 30).probes().len(), 20);
    assert_eq!(Solver::new(false, 59).probes().len(), 20);
    assert_eq!(Solver::new(false, 63).probes().len(), 21);
}

#[test]
fn probes_cover_a_small_pool() {
    let probes = Solver::new(false, 7).probes();
    assert_eq!(probes.len(), 7);
    assert!(probes.iter().enumerate().all(|(i, p)| p.word_idx == i && p.in_pool));
    assert!(Solver::new(false, 0).probes().is_empty());
}

#[test]
fn words_outside_the_pool_are_probed_but_not_counted() {
    let words = striped();
    let refs: Vec<&str> = words.iter().map(|w| w.as_str()).collect();
    let dict = dictionary(&refs);
    let mut cache = Cache::new(dict.len());
    let mut solver = Solver::new(false, dict.len());
    let history =
        vec![Guess { word: "tares".into(), mask: [Correct, Wrong, Wrong, Wrong, Wrong] }];
    assert_eq!(solver.try_guess(&dict, &mut cache, &history), Some(Advice::Rank));
    let pool: Vec<usize> = (1..=30).map(|i| 2 * i).collect();
    assert_eq!(solver.remaining(), &pool);
    // Twenty candidates are enough; the twentieth is word 40.
    let probes = solver.probes();
    assert_eq!(probes.len(), 41);
    for (i, p) in probes.iter().enumerate() {
        assert_eq!(p.word_idx, i);
        assert_eq!(p.in_pool, i >= 2 && i % 2 == 0);
    }
}

#[test]
fn hard_mode_probes_candidates_only() {
    let words = striped();
    let refs: Vec<&str> = words.iter().map(|w| w.as_str()).collect();
    let dict = dictionary(&refs);
    let mut cache = Cache::new(dict.len());
    let mut solver = Solver::new(true, dict.len());
    let history =
        vec![Guess { word: "tares".into(), mask: [Correct, Wrong, Wrong, Wrong, Wrong] }];
    assert_eq!(solver.try_guess(&dict, &mut cache, &history), Some(Advice::Rank));
    let probes = solver.probes();
    assert_eq!(probes.len(), 20);
    for (i, p) in probes.iter().enumerate() {
        assert_eq!(*p, Probe { word_idx: 2 * (i + 1), in_pool: true });
    }
}

#[test]
fn patterns_give_the_code_of_each_candidate() {
    let dict = dictionary(&SMALL);
    let mut cache = Cache::new(dict.len());
    let mut solver = Solver::new(false, dict.len());
    let history = vec![observed("cares", "tares")];
    assert_eq!(solver.try_guess(&dict, &mut cache, &history), Some(Advice::Rank));
    assert_eq!(solver.remaining(), &vec![0, 2, 7]);
    // "class" against cares, bares, pares
    let codes = solver.patterns(&dict, &mut cache, 3);
    let expected: Vec<u8> = ["cares", "bares", "pares"]
        .iter()
        .map(|answer| u8::from(PackedCorrectness::from(Correctness::compute(answer, "class"))))
        .collect();
    assert_eq!(codes, expected);
    // Correct, Wrong, Misplaced, Wrong, Correct: 0 + 54 + 9 + 6 + 0
    assert_eq!(codes[0], 69);
    // Wrong, Wrong, Misplaced, Wrong, Correct
    assert_eq!(codes[1], 2 * 81 + 69);
    // The opening word against them: only the first letter is off.
    assert_eq!(solver.patterns(&dict, &mut cache, 1), vec![162, 162, 162]);
}
