use wordle_solver::api::{play, ApiCorrectness, ApiGuess, UnknownWord};
use wordle_solver::cache::Cache;
use wordle_solver::dictionary::{Dictionary, Entry};
use wordle_solver::feedback::Correctness;
use wordle_solver::guess::Guess;
use wordle_solver::solver::{Advice, Solver};

fn dictionary() -> Dictionary {
    let words = ["cares", "tares", "bares", "class", "sassy", "abcde", "eabcd", "pares"];
    Dictionary::new(words.iter().map(|w| Entry { word: w.to_string(), count: 1 }).collect())
        .unwrap()
}

fn told(answer: &str, word: &str) -> ApiGuess {
    let mask = Correctness::compute(answer, word);
    ApiGuess {
        word: word.to_string(),
        mask: [
            mask[0].into(),
            mask[1].into(),
            mask[2].into(),
            mask[3].into(),
            mask[4].into(),
        ],
    }
}

fn accepted(solver: &Solver, dict: &Dictionary, cache: &mut Cache, history: &[ApiGuess]) -> bool {
    let internal: Vec<Guess> = history.iter().map(|g| g.to_guess()).collect();
    solver.accepts(dict, cache, &internal)
}

#[test]
fn verdicts_convert_both_ways() {
    assert_eq!(Correctness::from(ApiCorrectness::Correct), Correctness::Correct);
    assert_eq!(Correctness::from(ApiCorrectness::Misplaced), Correctness::Misplaced);
    assert_eq!(Correctness::from(ApiCorrectness::Wrong), Correctness::Wrong);
    assert_eq!(ApiCorrectness::from(Correctness::Correct), ApiCorrectness::Correct);
    assert_eq!(ApiCorrectness::from(Correctness::Misplaced), ApiCorrectness::Misplaced);
    assert_eq!(ApiCorrectness::from(Correctness::Wrong), ApiCorrectness::Wrong);
}

#[test]
fn a_callers_guess_converts_to_the_solvers() {
    let api = ApiGuess {
        word: "class".to_string(),
        mask: [
            ApiCorrectness::Wrong,
            ApiCorrectness::Wrong,
            ApiCorrectness::Misplaced,
            ApiCorrectness::Correct,
            ApiCorrectness::Misplaced,
        ],
    };
    let guess = api.to_guess();
    assert_eq!(guess.word, "class");
    assert_eq!(guess.mask, Correctness::compute("sassy", "class"));
}

#[test]
fn play_with_no_history_opens_with_tares() {
    let dict = dictionary();
    let mut cache = Cache::new(dict.len());
    let mut solver = Solver::new(false, dict.len());
    assert!(accepted(&solver, &dict, &mut cache, &[]));
    let advice = play(&mut solver, &dict, &mut cache, Vec::new()).unwrap();
    assert_eq!(advice, Advice::Certain(1));
}

#[test]
fn play_with_no_history_after_narrowing_opens_with_tares() {
    let dict = dictionary();
    let mut cache = Cache::new(dict.len());
    let mut solver = Solver::new(false, dict.len());
    let history = vec![told("sassy", "class")];
    assert!(accepted(&solver, &dict, &mut cache, &history));
    assert_eq!(play(&mut solver, &dict, &mut cache, history).unwrap(), Advice::Certain(4));
    assert_eq!(solver.remaining(), &vec![4]);
    assert!(accepted(&solver, &dict, &mut cache, &[]));
    assert_eq!(play(&mut solver, &dict, &mut cache, Vec::new()).unwrap(), Advice::Certain(1));
    assert_eq!(solver.last_guess_idx(), Some(1));
    assert_eq!(solver.remaining(), &vec![4]);
}

#[test]
fn play_turns_an_unknown_first_word_away() {
    let dict = dictionary();
    let mut cache = Cache::new(dict.len());
    let mut solver = Solver::new(false, dict.len());
    let history = vec![told("cares", "zares"), told("cares", "tares")];
    let refused = play(&mut solver, &dict, &mut cache, history).unwrap_err();
    assert_eq!(refused.word, "zares");
    assert_eq!(refused.message(), "Word not in dictionary: zares");
    // Nothing was taken in.
    assert_eq!(solver.remaining().len(), 8);
    assert_eq!(solver.last_guess_idx(), None);
}

#[test]
fn the_complaint_names_the_word() {
    let refused = UnknownWord { word: "qwert".to_string() };
    assert_eq!(refused.message(), "Word not in dictionary: qwert");
}

#[test]
fn play_narrows_by_the_last_record_only() {
    let dict = dictionary();
    let mut cache = Cache::new(dict.len());
    let mut solver = Solver::new(false, dict.len());
    let history = vec![told("pares", "tares")];
    assert!(accepted(&solver, &dict, &mut cache, &history));
    assert_eq!(play(&mut solver, &dict, &mut cache, history.clone()).unwrap(), Advice::Rank);
    assert_eq!(solver.remaining(), &vec![0, 2, 7]);
    let mut history = history;
    history.push(told("pares", "cares"));
    assert!(accepted(&solver, &dict, &mut cache, &history));
    assert_eq!(play(&mut solver, &dict, &mut cache, history).unwrap(), Advice::Rank);
    assert_eq!(solver.remaining(), &vec![2, 7]);
}

#[test]
fn play_checks_only_the_first_word() {
    let dict = dictionary();
    let mut cache = Cache::new(dict.len());
    let mut solver = Solver::new(false, dict.len());
    let history = vec![told("sassy", "tares"), told("sassy", "zlass")];
    assert!(accepted(&solver, &dict, &mut cache, &history));
    let advice = play(&mut solver, &dict, &mut cache, history);
    assert_eq!(advice.unwrap(), Advice::Certain(4));
}
