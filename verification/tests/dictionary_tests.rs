use wordle_solver::dictionary::{same_letters, Dictionary, Entry};

fn entries(words: &[(&str, usize)]) -> Vec<Entry> {
    words.iter().map(|(w, c)| Entry { word: w.to_string(), count: *c }).collect()
}

#[test]
fn dictionary_keeps_words_and_counts_in_order() {
    let dict = Dictionary::new(entries(&[("tares", 10), ("cares", 5), ("class", 0)])).unwrap();
    assert_eq!(dict.len(), 3);
    assert_eq!(dict.word(0), "tares");
    assert_eq!(dict.word(2), "class");
    assert_eq!(dict.count(1), 5);
    assert_eq!(dict.total(), 15);
}

#[test]
fn empty_dictionary_is_allowed() {
    let dict = Dictionary::new(Vec::new()).unwrap();
    assert_eq!(dict.len(), 0);
    assert_eq!(dict.total(), 0);
    assert_eq!(dict.position("tares"), None);
    assert!(!dict.contains("tares"));
}

#[test]
fn words_of_another_length_are_refused() {
    assert!(Dictionary::new(entries(&[("tares", 1), ("care", 1)])).is_none());
    assert!(Dictionary::new(entries(&[("caress", 1)])).is_none());
    assert!(Dictionary::new(entries(&[("", 1)])).is_none());
    // Five letters, but more than five bytes.
    assert!(Dictionary::new(entries(&[("caf\u{e9}s", 1)])).is_none());
}

#[test]
fn counts_that_overflow_are_refused() {
    assert!(Dictionary::new(entries(&[("tares", usize::MAX), ("cares", 1)])).is_none());
    let dict = Dictionary::new(entries(&[("tares", usize::MAX), ("cares", 0)])).unwrap();
    assert_eq!(dict.total(), usize::MAX);
}

#[test]
fn position_finds_the_first_occurrence() {
    let dict =
        Dictionary::new(entries(&[("tares", 1), ("cares", 1), ("tares", 1), ("class", 1)]))
            .unwrap();
    assert_eq!(dict.position("tares"), Some(0));
    assert_eq!(dict.position("cares"), Some(1));
    assert_eq!(dict.position("class"), Some(3));
    assert_eq!(dict.position("sassy"), None);
    assert_eq!(dict.position("tare"), None);
    assert!(dict.contains("class"));
    assert!(!dict.contains("CLASS"));
}

#[test]
fn same_letters_compares_bytes() {
    assert!(same_letters(b"tares", b"tares"));
    assert!(!same_letters(b"tares", b"tarep"));
    assert!(!same_letters(b"tares", b"tare"));
    assert!(same_letters(b"", b""));
}
