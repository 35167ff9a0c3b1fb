//! Letter-position mapping, case folding and punctuation stripping for the
//! 26-letter lowercase alphabet, plus the fixed catalogue of two-letter cribs.

use vstd::prelude::*;
use vstd::string::StrSliceExecFns;
use vstd::string::StringExecFns;

verus! {

/// `c` is a lowercase ASCII letter.
pub open spec fn is_lower(c: char) -> bool {
    'a' <= c && c <= 'z'
}

/// `c` is an uppercase ASCII letter.
pub open spec fn is_upper(c: char) -> bool {
    'A' <= c && c <= 'Z'
}

/// Position of a lowercase letter in the alphabet (`'a'` is 0, `'z'` is 25).
pub open spec fn spec_letter_pos(c: char) -> int {
    c as int - 97
}

/// The lowercase letter at position `i` of the alphabet.
pub open spec fn letter_of(i: int) -> char {
    ((i + 97) as char)
}

/// Uppercase ASCII letters folded to lowercase; everything else unchanged.
pub open spec fn spec_to_lower(c: char) -> char {
    if is_upper(c) {
        ((c as int + 32) as char)
    } else {
        c
    }
}

/// Returns the position of `letter` in the alphabet. `None` if it is not a
/// lowercase ascii letter.
pub fn get_letter_pos(letter: char) -> (r: Option<u8>)
    ensures
        r is Some <==> is_lower(letter),
        is_lower(letter) ==> r == Some(spec_letter_pos(letter) as u8),
{
    let u = letter as u32;
    if 97 <= u && u <= 122 {
        Some((u - 97) as u8)
    } else {
        None
    }
}

/// Returns the lowercase letter at position `pos` of the alphabet.
pub fn letter_at(pos: u8) -> (r: char)
    requires
        pos < 26,
    ensures
        r == letter_of(pos as int),
{
    ((pos + 97) as u8) as char
}

/// Folds an uppercase ASCII letter to lowercase; other characters pass through.
pub fn to_lower(c: char) -> (r: char)
    ensures
        r == spec_to_lower(c),
{
    let u = c as u32;
    if 65 <= u && u <= 90 {
        ((u + 32) as u8) as char
    } else {
        c
    }
}

/// Folds every uppercase ASCII letter of `s` to lowercase.
pub fn to_lower_str(s: &str) -> (r: String)
    ensures
        r@ == s@.map_values(|c: char| spec_to_lower(c)),
{
    let n = s.unicode_len();
    let mut out: Vec<char> = Vec::new();
    let mut i: usize = 0;
    proof {
        assert(out@ =~= s@.subrange(0, 0).map_values(|c: char| spec_to_lower(c)));
    }
    while i < n
        invariant
            n == s@.len(),
            i <= n,
            out@ == s@.subrange(0, i as int).map_values(|c: char| spec_to_lower(c)),
        decreases n - i,
    {
        out.push(to_lower(s.get_char(i)));
        i += 1;
        proof {
            assert(out@ =~= s@.subrange(0, i as int).map_values(|c: char| spec_to_lower(c)));
        }
    }
    proof {
        assert(s@.subrange(0, n as int) =~= s@);
    }
    chars_to_string(&out)
}

/// `c` is one of the punctuation characters that word splitting strips.
pub open spec fn is_punct(c: char) -> bool {
    c == ',' || c == '.' || c == '!' || c == ':' || c == ';'
}

/// Collects the characters of `v` into a `String`.
///
/// Relies on std's `FromIterator<char> for String`: collecting an iterator of
/// characters yields the string of exactly those characters, in order.
#[verifier::external_body]
pub(crate) fn chars_to_string(v: &Vec<char>) -> (r: String)
    ensures
        r@ == v@,
{
    v.iter().collect()
}

/// Copies the characters of `s` into a vector.
pub fn str_to_chars(s: &str) -> (r: Vec<char>)
    ensures
        r@ == s@,
{
    let n = s.unicode_len();
    let mut v: Vec<char> = Vec::new();
    let mut i: usize = 0;
    while i < n
        invariant
            n == s@.len(),
            i <= n,
            v@ == s@.subrange(0, i as int),
        decreases n - i,
    {
        v.push(s.get_char(i));
        i += 1;
        proof {
            assert(v@ =~= s@.subrange(0, i as int));
        }
    }
    proof {
        assert(v@ =~= s@);
    }
    v
}

/// Removes the fixed punctuation set `, . ! : ;` from `word`.
pub fn rm_punct(word: &str) -> (r: String)
    ensures
        r@ == word@.filter(|c: char| !is_punct(c)),
{
    let n = word.unicode_len();
    let mut kept: Vec<char> = Vec::new();
    let mut i: usize = 0;
    while i < n
        invariant
            n == word@.len(),
            i <= n,
            kept@ == word@.subrange(0, i as int).filter(|c: char| !is_punct(c)),
        decreases n - i,
    {
        let c = word.get_char(i);
        let keep = !(c == ',' || c == '.' || c == '!' || c == ':' || c == ';');
        if keep {
            kept.push(c);
        }
        proof {
            reveal(Seq::filter);
            assert(word@.subrange(0, i + 1).drop_last() =~= word@.subrange(0, i as int));
            assert(word@.subrange(0, i + 1).last() == c);
        }
        i += 1;
    }
    proof {
        assert(word@.subrange(0, n as int) =~= word@);
    }
    chars_to_string(&kept)
}

/// `c` is an ASCII whitespace character, the separator for word splitting.
pub open spec fn is_space(c: char) -> bool {
    c == ' ' || c == '\t' || c == '\n' || c == '\r' || c == '\x0c'
}

/// The words of `s[i..]`, scanning left to right with the partially read word
/// `cur` and the words `acc` already collected: maximal runs of non-space
/// characters, in order.
pub open spec fn split_ws_from(
    s: Seq<char>,
    i: int,
    cur: Seq<char>,
    acc: Seq<Seq<char>>,
) -> Seq<Seq<char>>
    decreases s.len() - i,
{
    if i < 0 || i >= s.len() {
        if cur.len() > 0 {
            acc.push(cur)
        } else {
            acc
        }
    } else if is_space(s[i]) {
        if cur.len() > 0 {
            split_ws_from(s, i + 1, Seq::empty(), acc.push(cur))
        } else {
            split_ws_from(s, i + 1, Seq::empty(), acc)
        }
    } else {
        split_ws_from(s, i + 1, cur.push(s[i]), acc)
    }
}

/// The whitespace-separated words of `s`.
pub open spec fn spec_split_ws(s: Seq<char>) -> Seq<Seq<char>> {
    split_ws_from(s, 0, Seq::empty(), Seq::empty())
}

/// The view of each string in a vector of words.
pub open spec fn word_views(ws: Seq<String>) -> Seq<Seq<char>> {
    ws.map_values(|w: String| w@)
}

/// Splits `s` on ASCII whitespace into its words.
pub fn split_whitespace_words(s: &str) -> (r: Vec<String>)
    ensures
        word_views(r@) == spec_split_ws(s@),
{
    let n = s.unicode_len();
    let mut words: Vec<String> = Vec::new();
    let mut cur: Vec<char> = Vec::new();
    let mut i: usize = 0;
    proof {
        assert(cur@ =~= Seq::<char>::empty());
        assert(word_views(words@) =~= Seq::<Seq<char>>::empty());
    }
    while i < n
        invariant
            n == s@.len(),
            i <= n,
            spec_split_ws(s@) == split_ws_from(s@, i as int, cur@, word_views(words@)),
        decreases n - i,
    {
        let c = s.get_char(i);
        let space = c == ' ' || c == '\t' || c == '\n' || c == '\r' || c == '\x0c';
        if space {
            if cur.len() > 0 {
                let ghost old_words = words@;
                let ghost old_cur = cur@;
                words.push(chars_to_string(&cur));
                cur.clear();
                proof {
                    assert(word_views(words@) =~= word_views(old_words).push(old_cur));
                    assert(cur@ =~= Seq::<char>::empty());
                }
            } else {
                proof {
                    assert(cur@ =~= Seq::<char>::empty());
                }
            }
        } else {
            cur.push(c);
        }
        i += 1;
    }
    if cur.len() > 0 {
        let ghost old_words = words@;
        let ghost old_cur = cur@;
        words.push(chars_to_string(&cur));
        proof {
            assert(word_views(words@) =~= word_views(old_words).push(old_cur));
        }
    }
    words
}

/// A set of lowercase letters, stored as one flag per alphabet position.
///
/// The searches use it to track which letters a crib application has already
/// committed.
pub struct LetterSet {
    pub present: Vec<bool>,
}

impl LetterSet {
    /// The flag vector covers exactly the 26 letter positions.
    pub open spec fn wf(self) -> bool {
        self.present@.len() == 26
    }

    /// Membership: only lowercase letters can be present.
    pub open spec fn spec_contains(self, c: char) -> bool {
        is_lower(c) && self.present@[spec_letter_pos(c)]
    }

    /// The empty set.
    pub fn new() -> (r: Self)
        ensures
            r.wf(),
            forall|c: char| !r.spec_contains(c),
    {
        LetterSet { present: vec![false; 26] }
    }

    /// Adds a lowercase letter.
    pub fn insert(&mut self, c: char)
        requires
            old(self).wf(),
            is_lower(c),
        ensures
            final(self).wf(),
            forall|d: char|
                final(self).spec_contains(d) == (old(self).spec_contains(d) || d == c),
    {
        let p = get_letter_pos(c).unwrap();
        self.present.set(p as usize, true);
        proof {
            assert forall|d: char|
                self.spec_contains(d) == (old(self).spec_contains(d) || d == c) by {
                if is_lower(d) && spec_letter_pos(d) == spec_letter_pos(c) {
                    assert((d as int) as char == d);
                    assert((c as int) as char == c);
                    assert(d == c);
                }
            }
        }
    }

    /// Removes a lowercase letter.
    pub fn remove(&mut self, c: char)
        requires
            old(self).wf(),
            is_lower(c),
        ensures
            final(self).wf(),
            forall|d: char|
                final(self).spec_contains(d) == (old(self).spec_contains(d) && d != c),
    {
        let p = get_letter_pos(c).unwrap();
        self.present.set(p as usize, false);
        proof {
            assert forall|d: char|
                self.spec_contains(d) == (old(self).spec_contains(d) && d != c) by {
                if is_lower(d) && spec_letter_pos(d) == spec_letter_pos(c) {
                    assert((d as int) as char == d);
                    assert((c as int) as char == c);
                    assert(d == c);
                }
            }
        }
    }

    /// Membership test.
    pub fn contains(&self, c: char) -> (r: bool)
        requires
            self.wf(),
        ensures
            r == self.spec_contains(c),
    {
        match get_letter_pos(c) {
            Some(p) => self.present[p as usize],
            None => false,
        }
    }
}

/// Common list of two-letter English words, used as cribs while pre-seeding.
pub fn cribs_l2() -> (r: Vec<String>)
    ensures
        r@.len() == 24,
        forall|i: int|
            0 <= i < 24 ==> (#[trigger] r@[i])@.len() == 2 && is_lower(r@[i]@[0]) && is_lower(
                r@[i]@[1],
            ),
        r@[0]@ == "of"@ && r@[1]@ == "to"@ && r@[2]@ == "in"@ && r@[3]@ == "it"@,
        r@[4]@ == "is"@ && r@[5]@ == "be"@ && r@[6]@ == "as"@ && r@[7]@ == "at"@,
        r@[8]@ == "so"@ && r@[9]@ == "we"@ && r@[10]@ == "he"@ && r@[11]@ == "by"@,
        r@[12]@ == "or"@ && r@[13]@ == "on"@ && r@[14]@ == "do"@ && r@[15]@ == "if"@,
        r@[16]@ == "me"@ && r@[17]@ == "my"@ && r@[18]@ == "up"@ && r@[19]@ == "an"@,
        r@[20]@ == "go"@ && r@[21]@ == "no"@ && r@[22]@ == "us"@ && r@[23]@ == "am"@,
{
    proof {
        reveal_strlit("of");
        reveal_strlit("to");
        reveal_strlit("in");
        reveal_strlit("it");
        reveal_strlit("is");
        reveal_strlit("be");
        reveal_strlit("as");
        reveal_strlit("at");
        reveal_strlit("so");
        reveal_strlit("we");
        reveal_strlit("he");
        reveal_strlit("by");
        reveal_strlit("or");
        reveal_strlit("on");
        reveal_strlit("do");
        reveal_strlit("if");
        reveal_strlit("me");
        reveal_strlit("my");
        reveal_strlit("up");
        reveal_strlit("an");
        reveal_strlit("go");
        reveal_strlit("no");
        reveal_strlit("us");
        reveal_strlit("am");
    }
    let mut r: Vec<String> = Vec::new();
    r.push(String::from_str("of"));
    r.push(String::from_str("to"));
    r.push(String::from_str("in"));
    r.push(String::from_str("it"));
    r.push(String::from_str("is"));
    r.push(String::from_str("be"));
    r.push(String::from_str("as"));
    r.push(String::from_str("at"));
    r.push(String::from_str("so"));
    r.push(String::from_str("we"));
    r.push(String::from_str("he"));
    r.push(String::from_str("by"));
    r.push(String::from_str("or"));
    r.push(String::from_str("on"));
    r.push(String::from_str("do"));
    r.push(String::from_str("if"));
    r.push(String::from_str("me"));
    r.push(String::from_str("my"));
    r.push(String::from_str("up"));
    r.push(String::from_str("an"));
    r.push(String::from_str("go"));
    r.push(String::from_str("no"));
    r.push(String::from_str("us"));
    r.push(String::from_str("am"));
    r
}

} // verus!
