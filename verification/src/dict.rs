//! The dictionary word-membership checker: a word list with whole-text and
//! word-list membership queries.

use vstd::prelude::*;

use crate::alpha::is_punct;
use crate::alpha::rm_punct;
use crate::alpha::spec_split_ws;
use crate::alpha::split_whitespace_words;

verus! {

/// A dictionary of words.
pub struct Dict {
    pub words: Vec<String>,
}

impl Dict {
    /// `w` is a word of the dictionary.
    pub open spec fn spec_contains(self, w: Seq<char>) -> bool {
        exists|i: int| 0 <= i < self.words@.len() && (#[trigger] self.words@[i])@ == w
    }

    /// The number of entries of `ws` that are dictionary words.
    pub open spec fn spec_count_words(self, ws: Seq<Seq<char>>) -> int {
        ws.filter(|w: Seq<char>| self.spec_contains(w)).len() as int
    }

    /// Note that the word list is moved; this ensures it can't accidentally
    /// be changed.
    pub fn new(words: Vec<String>) -> (r: Self)
        ensures
            r.words@ == words@,
    {
        Dict { words }
    }

    /// Membership of one word.
    fn contains(&self, w: &String) -> (r: bool)
        ensures
            r == self.spec_contains(w@),
    {
        let n = self.words.len();
        let mut i: usize = 0;
        while i < n
            invariant
                n == self.words@.len(),
                i <= n,
                forall|j: int| 0 <= j < i ==> (#[trigger] self.words@[j])@ != w@,
            decreases n - i,
        {
            if self.words[i] == *w {
                return true;
            }
            i += 1;
        }
        false
    }

    /// Whether every word of `list` is a dictionary word.
    pub fn contains_every_word(&self, list: &[String]) -> (r: bool)
        ensures
            r == forall|i: int| 0 <= i < list@.len() ==> self.spec_contains(#[trigger] list@[i]@),
    {
        let n = list.len();
        let mut i: usize = 0;
        while i < n
            invariant
                n == list@.len(),
                i <= n,
                forall|j: int| 0 <= j < i ==> self.spec_contains(#[trigger] list@[j]@),
            decreases n - i,
        {
            if !self.contains(&list[i]) {
                return false;
            }
            i += 1;
        }
        true
    }

    /// Whether every whitespace-separated word of `string`, with the fixed
    /// punctuation set stripped, is a dictionary word.
    pub fn str_contains_every_word(&self, string: &str) -> (r: bool)
        ensures
            r == forall|i: int|
                0 <= i < spec_split_ws(string@).len() ==> self.spec_contains(
                    (#[trigger] spec_split_ws(string@)[i]).filter(|c: char| !is_punct(c)),
                ),
    {
        let toks = split_whitespace_words(string);
        let n = toks.len();
        let mut i: usize = 0;
        while i < n
            invariant
                crate::alpha::word_views(toks@) == spec_split_ws(string@),
                n == toks@.len(),
                i <= n,
                forall|j: int|
                    0 <= j < i ==> self.spec_contains(
                        (#[trigger] spec_split_ws(string@)[j]).filter(|c: char| !is_punct(c)),
                    ),
            decreases n - i,
        {
            let w = rm_punct(toks[i].as_str());
            proof {
                assert(toks@[i as int]@ == crate::alpha::word_views(toks@)[i as int]);
                assert(w@ == spec_split_ws(string@)[i as int].filter(|c: char| !is_punct(c)));
            }
            if !self.contains(&w) {
                return false;
            }
            i += 1;
        }
        true
    }

    /// Counts how many entries of `list` are dictionary words.
    pub fn count_words(&self, list: &[String]) -> (r: u32)
        requires
            list@.len() <= u32::MAX,
        ensures
            r == self.spec_count_words(list@.map_values(|w: String| w@)),
    {
        let n = list.len();
        let mut cnt: u32 = 0;
        let mut i: usize = 0;
        let ghost lv = list@.map_values(|w: String| w@);
        proof {
            assert(lv.subrange(0, 0) =~= Seq::<Seq<char>>::empty());
            reveal(Seq::filter);
        }
        while i < n
            invariant
                lv == list@.map_values(|w: String| w@),
                n == list@.len(),
                n <= u32::MAX,
                i <= n,
                cnt <= i,
                cnt == self.spec_count_words(lv.subrange(0, i as int)),
            decreases n - i,
        {
            if self.contains(&list[i]) {
                cnt += 1;
            }
            i += 1;
            proof {
                reveal(Seq::filter);
                assert(lv.subrange(0, i as int).drop_last() =~= lv.subrange(0, i - 1));
                assert(lv.subrange(0, i as int).last() == lv[i - 1]);
                assert(lv[i - 1] == list@[i - 1]@);
            }
        }
        proof {
            assert(lv.subrange(0, n as int) =~= lv);
        }
        cnt
    }
}

} // verus!
