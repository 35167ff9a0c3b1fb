//! The Caesar-shift cracker: letter shifting, whole-string transforms, and a
//! frequency-analysis crack that tries mapping each letter to `'e'`, from the
//! rarest letter up, until the dictionary accepts the whole text.

use vstd::arithmetic::div_mod::lemma_fundamental_div_mod;
use vstd::arithmetic::div_mod::lemma_mod_multiples_vanish;
use vstd::arithmetic::div_mod::lemma_small_mod;
use vstd::prelude::*;
use vstd::string::StrSliceExecFns;

use crate::alpha::chars_to_string;
use crate::alpha::get_letter_pos;
use crate::alpha::is_lower;
use crate::alpha::is_punct;
use crate::alpha::letter_at;
use crate::alpha::letter_of;
use crate::alpha::spec_letter_pos;
use crate::alpha::spec_split_ws;
use crate::alpha::to_lower_str;
use crate::dict::Dict;

verus! {

pub struct Caesar {}

/// A letter shifted along the alphabet, wrapping around; other characters are
/// unchanged. A negative shift moves backwards.
pub open spec fn spec_shift(c: char, shift: int) -> char {
    if is_lower(c) {
        letter_of((spec_letter_pos(c) + shift) % 26)
    } else {
        c
    }
}

/// A whole string shifted letter by letter.
pub open spec fn spec_transform(s: Seq<char>, shift: int) -> Seq<char> {
    s.map_values(|c: char| spec_shift(c, shift))
}

/// The number of occurrences of the letter `c` in `s`.
pub open spec fn letter_count(s: Seq<char>, c: char) -> int {
    s.filter(|x: char| x == c).len() as int
}

/// The text that one crack trial tests: the lowercased input shifted so that
/// the letter `c` goes to `'e'`.
pub open spec fn spec_trial(text: Seq<char>, c: char) -> Seq<char> {
    spec_transform(
        text.map_values(|x: char| crate::alpha::spec_to_lower(x)),
        'e' as int - c as int,
    )
}

/// Some entry of the letter-order list `r` holds the letter `c`.
pub open spec fn has_letter(r: Seq<(char, usize)>, c: char) -> bool {
    exists|k: int| 0 <= k < r.len() && (#[trigger] r[k]).0 == c
}

/// Every stripped word of `s` is a word of `dict`.
pub open spec fn all_words_in_dict(dict: Dict, s: Seq<char>) -> bool {
    forall|i: int|
        0 <= i < spec_split_ws(s).len() ==> dict.spec_contains(
            (#[trigger] spec_split_ws(s)[i]).filter(|c: char| !is_punct(c)),
        )
}

impl Caesar {
    /// Shift a letter by a certain amount, wrapping around the alphabet;
    /// non-letters are left unchanged. Negative shift moves backwards.
    pub fn shift(letter: char, shift: i32) -> (r: char)
        ensures
            r == spec_shift(letter, shift as int),
    {
        let p = match get_letter_pos(letter) {
            Some(p) => p,
            None => {
                return letter;
            },
        };
        let sh: i64 = shift as i64;
        let off: u8 = if sh >= 0 {
            (sh % 26) as u8
        } else {
            let a = (-sh) % 26;
            ((26 - a) % 26) as u8
        };
        proof {
            let pi = p as int;
            let si = shift as int;
            if sh >= 0 {
                assert((pi + si) % 26 == (pi + off) % 26) by {
                    let q = si / 26;
                    lemma_fundamental_div_mod(si, 26);
                    assert(pi + si == 26 * q + (pi + off));
                    lemma_mod_multiples_vanish(q, pi + off, 26);
                }
            } else {
                let a = (-si) % 26;
                let q = (-si) / 26;
                lemma_fundamental_div_mod(-si, 26);
                assert(-si == 26 * q + a);
                if a == 0 {
                    assert(off == 0);
                    assert(pi + si == 26 * (-q) + (pi + off));
                    lemma_mod_multiples_vanish(-q, pi + off, 26);
                } else {
                    assert(off == 26 - a);
                    assert(pi + si == 26 * (-q - 1) + (pi + off));
                    lemma_mod_multiples_vanish(-q - 1, pi + off, 26);
                }
            }
            lemma_small_mod(((p + off) % 26) as nat, 26);
        }
        letter_at((p + off) % 26)
    }

    /// Find the distance between two characters' code points.
    pub fn distance(a: char, b: char) -> (r: i32)
        ensures
            r == a as int - b as int,
    {
        a as i32 - b as i32
    }

    /// Shift an entire string with the Caesar cipher, letter by letter.
    pub fn transform(text: &str, shift: i32) -> (r: String)
        ensures
            r@ == spec_transform(text@, shift as int),
    {
        if shift == 0 {
            proof {
                assert forall|i: int| 0 <= i < text@.len() implies spec_shift(
                    #[trigger] text@[i],
                    0,
                ) == text@[i] by {
                    let c = text@[i];
                    if is_lower(c) {
                        lemma_small_mod(spec_letter_pos(c) as nat, 26);
                        assert((c as int) as char == c);
                    }
                }
                assert(spec_transform(text@, 0) =~= text@);
            }
            return text.to_owned();
        }
        let n = text.unicode_len();
        let mut out: Vec<char> = Vec::new();
        let mut i: usize = 0;
        proof {
            assert(out@ =~= spec_transform(text@.subrange(0, 0), shift as int));
        }
        while i < n
            invariant
                n == text@.len(),
                i <= n,
                out@ == spec_transform(text@.subrange(0, i as int), shift as int),
            decreases n - i,
        {
            out.push(Self::shift(text.get_char(i), shift));
            i += 1;
            proof {
                assert(out@ =~= spec_transform(text@.subrange(0, i as int), shift as int));
            }
        }
        proof {
            assert(text@.subrange(0, n as int) =~= text@);
        }
        chars_to_string(&out)
    }

    /// Cracks `text` by frequency analysis: orders the letters by how rarely
    /// they occur in the text and, from the rarest up, tries the shift that
    /// maps each letter to `'e'`, returning the first shifted text whose
    /// words the dictionary all accepts. `None` when no letter's trial text
    /// is accepted.
    pub fn crack(text: &str, dict: &Dict) -> (r: Option<String>)
        ensures
            r matches Some(t) ==> exists|c: char|
                is_lower(c) && t@ == #[trigger] spec_trial(text@, c) && all_words_in_dict(
                    *dict,
                    t@,
                ),
            r is None ==> forall|c: char|
                is_lower(c) ==> !all_words_in_dict(*dict, #[trigger] spec_trial(text@, c)),
    {
        let lower = to_lower_str(text);
        let order = order_by_count(lower.as_str());
        let n = order.len();
        let mut i: usize = 0;
        while i < n
            invariant
                lower@ == text@.map_values(|x: char| crate::alpha::spec_to_lower(x)),
                n == order@.len(),
                n == 26,
                i <= n,
                forall|k: int| 0 <= k < 26 ==> is_lower((#[trigger] order@[k]).0),
                forall|p: int| 0 <= p < 26 ==> has_letter(order@, #[trigger] letter_of(p)),
                forall|k: int|
                    0 <= k < i ==> !all_words_in_dict(
                        *dict,
                        spec_trial(text@, (#[trigger] order@[k]).0),
                    ),
            decreases n - i,
        {
            let trial = order[i].0;
            let dist = Self::distance('e', trial);
            let shifted = Self::transform(lower.as_str(), dist);
            if dict.str_contains_every_word(shifted.as_str()) {
                proof {
                    assert(is_lower(trial));
                    assert(shifted@ == spec_trial(text@, trial));
                    assert(all_words_in_dict(*dict, shifted@));
                }
                return Some(shifted);
            }
            i += 1;
        }
        proof {
            assert forall|c: char| is_lower(c) implies !all_words_in_dict(
                *dict,
                #[trigger] spec_trial(text@, c),
            ) by {
                let p = spec_letter_pos(c);
                assert(has_letter(order@, letter_of(p)));
                let k = choose|k: int| 0 <= k < order@.len() && (#[trigger] order@[k]).0 == letter_of(p);
                assert((c as int) as char == c);
                assert(order@[k].0 == c);
            }
        }
        None
    }
}

/// The 26 letters with their occurrence counts in `s`, in ascending order of
/// count: each letter exactly once, with its exact count.
#[verifier::loop_isolation(false)]
fn order_by_count(s: &str) -> (r: Vec<(char, usize)>)
    ensures
        r@.len() == 26,
        forall|k: int|
            0 <= k < 26 ==> is_lower((#[trigger] r@[k]).0) && r@[k].1 == letter_count(
                s@,
                r@[k].0,
            ),
        forall|k1: int, k2: int| 0 <= k1 < k2 < 26 ==> r@[k1].0 != r@[k2].0,
        forall|k1: int, k2: int| 0 <= k1 < k2 < 26 ==> r@[k1].1 <= r@[k2].1,
        forall|p: int| 0 <= p < 26 ==> has_letter(r@, #[trigger] letter_of(p)),
{
    let mut r: Vec<(char, usize)> = Vec::new();
    let mut p: usize = 0;
    while p < 26
        invariant
            r@.len() == p,
            p <= 26,
            forall|k: int|
                0 <= k < p ==> is_lower((#[trigger] r@[k]).0) && r@[k].1 == letter_count(
                    s@,
                    r@[k].0,
                ),
            forall|k: int| 0 <= k < p ==> spec_letter_pos((#[trigger] r@[k]).0) < p,
            forall|k1: int, k2: int| 0 <= k1 < k2 < p ==> r@[k1].0 != r@[k2].0,
            forall|k1: int, k2: int| 0 <= k1 < k2 < p ==> r@[k1].1 <= r@[k2].1,
            forall|q: int| 0 <= q < p ==> has_letter(r@, #[trigger] letter_of(q)),
        decreases 26 - p,
    {
        let c = letter_at(p as u8);
        let cnt = count_letter(s, c);
        let mut at: usize = 0;
        while at < r.len() && r[at].1 <= cnt
            invariant
                at <= r@.len(),
                forall|t: int| 0 <= t < at ==> (#[trigger] r@[t]).1 <= cnt,
            decreases r@.len() - at,
        {
            at += 1;
        }
        let ghost old_r = r@;
        r.insert(at, (c, cnt));
        p += 1;
        proof {
            old_r.insert_ensures(at as int, (letter_of(p - 1), cnt as usize));
            assert(spec_letter_pos(letter_of(p - 1)) == p - 1);
            assert forall|k1: int, k2: int| 0 <= k1 < k2 < p implies r@[k1].0 != r@[k2].0 by {
                if k1 < at {
                    assert(r@[k1] == old_r[k1]);
                } else if k1 > at {
                    assert(r@[k1] == old_r[k1 - 1]);
                }
                if k2 < at {
                    assert(r@[k2] == old_r[k2]);
                } else if k2 > at {
                    assert(r@[k2] == old_r[k2 - 1]);
                }
            }
            assert forall|q: int| 0 <= q < p implies has_letter(r@, #[trigger] letter_of(q)) by {
                if q == p - 1 {
                    assert(r@[at as int].0 == letter_of(q));
                } else {
                    let k0 = choose|k0: int|
                        0 <= k0 < old_r.len() && (#[trigger] old_r[k0]).0 == letter_of(q);
                    if k0 < at {
                        assert(r@[k0].0 == letter_of(q));
                    } else {
                        assert(r@[k0 + 1].0 == letter_of(q));
                    }
                }
            }
        }
    }
    r
}

/// Counts the occurrences of the letter `c` in `s`.
fn count_letter(s: &str, c: char) -> (r: usize)
    ensures
        r == letter_count(s@, c),
        r <= s@.len(),
{
    let n = s.unicode_len();
    let mut cnt: usize = 0;
    let mut i: usize = 0;
    proof {
        assert(s@.subrange(0, 0) =~= Seq::<char>::empty());
        reveal(Seq::filter);
    }
    while i < n
        invariant
            n == s@.len(),
            i <= n,
            cnt <= i,
            cnt == letter_count(s@.subrange(0, i as int), c),
        decreases n - i,
    {
        if s.get_char(i) == c {
            cnt += 1;
        }
        i += 1;
        proof {
            reveal(Seq::filter);
            assert(s@.subrange(0, i as int).drop_last() =~= s@.subrange(0, i - 1));
        }
    }
    proof {
        assert(s@.subrange(0, n as int) =~= s@);
    }
    cnt
}

} // verus!
