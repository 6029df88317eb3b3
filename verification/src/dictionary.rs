//! The word list: five-letter words in a fixed order, each with the number of
//! times it was observed.

use vstd::prelude::*;
use crate::feedback::letters;

verus! {

/// One word of the list and how often it was observed.
pub struct Entry {
    pub word: String,
    pub count: usize,
}

/// The sum of the first `n` counts.
pub open spec fn total_count(entries: Seq<Entry>, n: int) -> int
    decreases n,
{
    if n <= 0 {
        0
    } else {
        total_count(entries, n - 1) + entries[n - 1].count
    }
}

/// The letters of each word, in the order of the list.
pub open spec fn words_of(entries: Seq<Entry>) -> Seq<Seq<u8>> {
    Seq::new(entries.len(), |i: int| letters(entries[i].word@))
}

/// The first index from `from` on at which `words` holds `word`, or the
/// length of `words` where it does not occur.
pub open spec fn position_from(words: Seq<Seq<u8>>, word: Seq<u8>, from: int) -> int
    decreases words.len() - from,
{
    if from >= words.len() {
        words.len() as int
    } else if words[from] == word {
        from
    } else {
        position_from(words, word, from + 1)
    }
}

/// `position_from` finds the first occurrence and nothing else.
pub proof fn lemma_position_from(words: Seq<Seq<u8>>, word: Seq<u8>, from: int)
    requires
        0 <= from,
    ensures
        ({
            let p = position_from(words, word, from);
            &&& from <= p || p == words.len()
            &&& p <= words.len()
            &&& p < words.len() ==> words[p] == word
            &&& forall|j: int| from <= j < p ==> words[j] != word
        }),
    decreases words.len() - from,
{
    if from < words.len() && words[from] != word {
        lemma_position_from(words, word, from + 1);
    }
}

/// Whether two byte strings are the same.
pub fn same_letters(a: &[u8], b: &[u8]) -> (same: bool)
    ensures
        same == (a@ == b@),
{
    if a.len() != b.len() {
        return false;
    }
    let mut i: usize = 0;
    while i < a.len()
        invariant
            i <= a@.len(),
            a@.len() == b@.len(),
            forall|j: int| 0 <= j < i ==> a@[j] == b@[j],
        decreases a@.len() - i,
    {
        if a[i] != b[i] {
            return false;
        }
        i += 1;
    }
    assert(a@ =~= b@);
    true
}

/// The word list.
pub struct Dictionary {
    entries: Vec<Entry>,
    total: usize,
}

impl View for Dictionary {
    type V = Seq<Seq<u8>>;

    /// The letters of each word, by index.
    closed spec fn view(&self) -> Seq<Seq<u8>> {
        words_of(self.entries@)
    }
}

impl Dictionary {
    /// The entries, by index.
    pub closed spec fn entries(&self) -> Seq<Entry> {
        self.entries@
    }

    /// Every word has five letters, and the counts add up to the stored total.
    pub closed spec fn wf(&self) -> bool {
        &&& forall|i: int| 0 <= i < self.entries@.len() ==> (#[trigger] self@[i]).len() == 5
        &&& self.total == total_count(self.entries@, self.entries@.len() as int)
    }

    /// What `wf` gives to the outside.
    pub proof fn lemma_wf(&self)
        requires
            self.wf(),
        ensures
            self@ == words_of(self.entries()),
            self@.len() == self.entries().len(),
            forall|i: int| 0 <= i < self@.len() ==> (#[trigger] self@[i]).len() == 5,
    {
    }

    /// Builds the list, unless a word is not five bytes long or the counts
    /// do not add up within `usize`.
    pub fn new(entries: Vec<Entry>) -> (made: Option<Dictionary>)
        ensures
            made is Some <==> (forall|i: int|
                0 <= i < entries@.len() ==> (#[trigger] letters(entries@[i].word@)).len() == 5)
                && total_count(entries@, entries@.len() as int) <= usize::MAX,
            made matches Some(d) ==> d.wf() && d.entries() == entries@,
    {
        let mut total: usize = 0;
        let mut i: usize = 0;
        while i < entries.len()
            invariant
                i <= entries@.len(),
                total == total_count(entries@, i as int),
                forall|j: int| 0 <= j < i ==> (#[trigger] letters(entries@[j].word@)).len() == 5,
            decreases entries@.len() - i,
        {
            if entries[i].word.as_str().as_bytes().len() != 5 {
                assert(letters(entries@[i as int].word@).len() != 5);
                return None;
            }
            match total.checked_add(entries[i].count) {
                Some(t) => {
                    total = t;
                },
                None => {
                    proof {
                        lemma_total_count_monotone(entries@, i as int + 1, entries@.len() as int);
                    }
                    return None;
                },
            }
            i += 1;
        }
        let made = Dictionary { entries, total };
        assert forall|k: int| 0 <= k < made.entries@.len() implies (#[trigger] made@[k]).len()
            == 5 by {
            assert(letters(made.entries@[k].word@).len() == 5);
        }
        Some(made)
    }

    /// Number of words.
    pub fn len(&self) -> (n: usize)
        ensures
            n == self@.len(),
    {
        self.entries.len()
    }

    /// The word at `idx`.
    pub fn word(&self, idx: usize) -> (word: &str)
        requires
            self.wf(),
            idx < self@.len(),
        ensures
            letters(word@) == self@[idx as int],
            letters(word@).len() == 5,
            word@ == self.entries()[idx as int].word@,
    {
        assert(self@[idx as int].len() == 5);
        self.entries[idx].word.as_str()
    }

    /// How often the word at `idx` was observed.
    pub fn count(&self, idx: usize) -> (count: usize)
        requires
            idx < self@.len(),
        ensures
            count == self.entries()[idx as int].count,
    {
        self.entries[idx].count
    }

    /// The sum of all counts.
    pub fn total(&self) -> (total: usize)
        requires
            self.wf(),
        ensures
            total == total_count(self.entries(), self.entries().len() as int),
    {
        self.total
    }

    /// The index of the first entry that holds `word`, if there is one.
    pub fn position(&self, word: &str) -> (found: Option<usize>)
        ensures
            match found {
                Some(idx) => idx == position_from(self@, letters(word@), 0) && idx < self@.len(),
                None => position_from(self@, letters(word@), 0) == self@.len(),
            },
    {
        let wanted = word.as_bytes();
        let mut i: usize = 0;
        while i < self.entries.len()
            invariant
                i <= self@.len(),
                self@.len() == self.entries@.len(),
                wanted@ == letters(word@),
                position_from(self@, letters(word@), 0) == position_from(
                    self@,
                    letters(word@),
                    i as int,
                ),
            decreases self@.len() - i,
        {
            if same_letters(self.entries[i].word.as_str().as_bytes(), wanted) {
                return Some(i);
            }
            i += 1;
        }
        None
    }

    /// Whether the list holds `word`.
    pub fn contains(&self, word: &str) -> (held: bool)
        ensures
            held == self@.contains(letters(word@)),
    {
        proof {
            lemma_position_from(self@, letters(word@), 0);
        }
        self.position(word).is_some()
    }
}

/// The running total never shrinks.
pub proof fn lemma_total_count_monotone(entries: Seq<Entry>, m: int, n: int)
    requires
        0 <= m <= n,
    ensures
        0 <= total_count(entries, m) <= total_count(entries, n),
    decreases n,
{
    if m < n {
        lemma_total_count_monotone(entries, m, n - 1);
    } else if m > 0 {
        lemma_total_count_monotone(entries, m - 1, m - 1);
    }
}

} // verus!
