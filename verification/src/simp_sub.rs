//! The simple-substitution key: an invertible permutation of the 26-letter
//! alphabet, with operations to construct, mutate and apply it.

use vstd::prelude::*;
use vstd::seq_lib::group_seq_properties;
use vstd::set_lib::lemma_subset_equality;
use vstd::string::StrSliceExecFns;

use crate::CipherError;
use crate::alpha::LetterSet;
use crate::alpha::chars_to_string;
use crate::alpha::cribs_l2;
use crate::alpha::get_letter_pos;
use crate::alpha::is_lower;
use crate::alpha::is_upper;
use crate::alpha::letter_at;
use crate::alpha::letter_of;
use crate::alpha::spec_letter_pos;
use crate::alpha::is_punct;
use crate::alpha::is_space;
use crate::alpha::rm_punct;
use crate::alpha::spec_split_ws;
use crate::alpha::spec_to_lower;
use crate::alpha::split_whitespace_words;
use crate::alpha::split_ws_from;
use crate::alpha::str_to_chars;
use crate::alpha::to_lower;
use crate::alpha::to_lower_str;
use crate::alpha::word_views;
use crate::ngram::NGram;

verus! {

/// A substitution key over the lowercase alphabet.
///
/// `forward` maps the position of a plaintext letter to the position of the
/// ciphertext letter it encrypts to; `backward` is the inverse permutation and
/// drives decryption.
#[derive(Debug)]
pub struct SimpSub {
    pub forward: Vec<u8>,
    pub backward: Vec<u8>,
}

/// Both strings are permutations of the 26 lowercase letters.
pub open spec fn is_alpha_perm(s: Seq<char>) -> bool {
    &&& s.len() == 26
    &&& forall|i: int| 0 <= i < 26 ==> is_lower(#[trigger] s[i])
    &&& forall|i: int, j: int| 0 <= i < 26 && 0 <= j < 26 && i != j ==> s[i] != s[j]
}

/// The key invariant, stated of a bare table pair.
pub open spec fn tables_wf(f: Seq<u8>, b: Seq<u8>) -> bool {
    &&& f.len() == 26
    &&& b.len() == 26
    &&& forall|i: int| 0 <= i < 26 ==> #[trigger] f[i] < 26
    &&& forall|i: int| 0 <= i < 26 ==> #[trigger] b[i] < 26
    &&& forall|i: int| 0 <= i < 26 ==> b[#[trigger] f[i] as int] == i
    &&& forall|i: int| 0 <= i < 26 ==> f[#[trigger] b[i] as int] == i
}

/// The forward permutation after the images of positions `p0` and `p1` are
/// exchanged.
pub open spec fn swap_fwd(f: Seq<u8>, p0: int, p1: int) -> Seq<u8> {
    f.update(p0, f[p1]).update(p1, f[p0])
}

/// The backward permutation matching `swap_fwd(f, p0, p1)`.
pub open spec fn swap_bwd(f: Seq<u8>, b: Seq<u8>, p0: int, p1: int) -> Seq<u8> {
    b.update(f[p1] as int, p0 as u8).update(f[p0] as int, p1 as u8)
}

/// The forward permutation after position `p` is forced to map to `v`: the
/// position that mapped to `v` before takes over the old image of `p`.
pub open spec fn reassign_fwd(f: Seq<u8>, b: Seq<u8>, p: int, v: int) -> Seq<u8> {
    f.update(p, v as u8).update(b[v] as int, f[p])
}

/// The backward permutation matching `reassign_fwd(f, b, p, v)`.
pub open spec fn reassign_bwd(f: Seq<u8>, b: Seq<u8>, p: int, v: int) -> Seq<u8> {
    b.update(v, p as u8).update(f[p] as int, b[v])
}

impl SimpSub {
    /// The key invariant: both tables cover the 26 letter positions and are
    /// mutually inverse permutations.
    pub open spec fn wf(self) -> bool {
        tables_wf(self.forward@, self.backward@)
    }

    /// The ciphertext letter position that plaintext position `i` encrypts to.
    pub open spec fn fwd(self, i: int) -> int {
        self.forward@[i] as int
    }

    /// The plaintext letter position that ciphertext position `i` decrypts to.
    pub open spec fn bwd(self, i: int) -> int {
        self.backward@[i] as int
    }

    /// How one character encrypts: letters (after case folding) go through the
    /// forward table, everything else passes through unchanged.
    pub open spec fn enc_char(self, c: char) -> char {
        if is_lower(c) || is_upper(c) {
            letter_of(self.fwd(spec_letter_pos(spec_to_lower(c))))
        } else {
            c
        }
    }

    /// How one character decrypts: letters (after case folding) go through the
    /// backward table, everything else passes through unchanged.
    pub open spec fn dec_char(self, c: char) -> char {
        if is_lower(c) || is_upper(c) {
            letter_of(self.bwd(spec_letter_pos(spec_to_lower(c))))
        } else {
            c
        }
    }

    /// Encryption of a whole character sequence.
    pub open spec fn spec_encrypt(self, s: Seq<char>) -> Seq<char> {
        s.map_values(|c: char| self.enc_char(c))
    }

    /// Decryption of a whole character sequence.
    pub open spec fn spec_decrypt(self, s: Seq<char>) -> Seq<char> {
        s.map_values(|c: char| self.dec_char(c))
    }
}

impl Clone for SimpSub {
    fn clone(&self) -> (r: Self)
        ensures
            r.forward@ == self.forward@,
            r.backward@ == self.backward@,
    {
        let r = SimpSub { forward: self.forward.clone(), backward: self.backward.clone() };
        proof {
            assert(r.forward@ =~= self.forward@);
            assert(r.backward@ =~= self.backward@);
        }
        r
    }
}

/// Every letter position occurs in a 26-letter permutation string.
proof fn lemma_alpha_perm_onto(s: Seq<char>, p: int)
    requires
        is_alpha_perm(s),
        0 <= p < 26,
    ensures
        exists|j: int| 0 <= j < 26 && spec_letter_pos(#[trigger] s[j]) == p,
{
    broadcast use group_seq_properties;

    let alpha = Seq::new(26, |i: int| letter_of(i));
    assert(s.no_duplicates());
    s.unique_seq_to_set();
    assert(alpha.no_duplicates());
    alpha.unique_seq_to_set();
    assert forall|x: char| s.to_set().contains(x) implies alpha.to_set().contains(x) by {
        let i = choose|i: int| 0 <= i < s.len() && s[i] == x;
        assert(is_lower(x));
        assert(alpha[spec_letter_pos(x)] == x);
        assert(alpha.contains(x));
    }
    lemma_subset_equality(s.to_set(), alpha.to_set());
    let c = letter_of(p);
    assert(alpha[p] == c);
    assert(alpha.contains(c));
    assert(s.to_set().contains(c));
    let j = choose|j: int| 0 <= j < s.len() && s[j] == c;
    assert(spec_letter_pos(s[j]) == p);
}

impl SimpSub {
    /// Builds a key from a plaintext alphabet string and the ciphertext string
    /// it maps to, position by position.
    ///
    /// Fails exactly when the two strings differ in length. Inputs of equal
    /// length must be permutations of the lowercase alphabet: that is a caller
    /// contract.
    pub fn new(from: &str, to: &str) -> (r: Result<Self, CipherError>)
        requires
            from@.len() == to@.len() ==> is_alpha_perm(from@) && is_alpha_perm(to@),
        ensures
            r is Err <==> from@.len() != to@.len(),
            r is Err ==> r == Err::<Self, CipherError>(CipherError::KeyLengthMismatch),
            r matches Ok(k) ==> k.wf() && forall|i: int|
                0 <= i < 26 ==> k.fwd(spec_letter_pos(from@[i])) == spec_letter_pos(to@[i]),
    {
        if from.unicode_len() != to.unicode_len() {
            return Err(CipherError::KeyLengthMismatch);
        }
        let mut forward: Vec<u8> = vec![0u8; 26];
        let mut backward: Vec<u8> = vec![0u8; 26];
        let mut i: usize = 0;
        while i < 26
            invariant
                is_alpha_perm(from@),
                is_alpha_perm(to@),
                i <= 26,
                forward@.len() == 26,
                backward@.len() == 26,
                forall|j: int| 0 <= j < 26 ==> #[trigger] forward@[j] < 26,
                forall|j: int| 0 <= j < 26 ==> #[trigger] backward@[j] < 26,
                forall|j: int|
                    0 <= j < i ==> forward@[spec_letter_pos(#[trigger] from@[j])]
                        == spec_letter_pos(to@[j]) as u8,
                forall|j: int|
                    0 <= j < i ==> backward@[spec_letter_pos(#[trigger] to@[j])]
                        == spec_letter_pos(from@[j]) as u8,
            decreases 26 - i,
        {
            let p = match get_letter_pos(from.get_char(i)) {
                Some(p) => p,
                None => {
                    proof {
                        assert(is_lower(from@[i as int]));
                    }
                    unreached()
                },
            };
            let q = match get_letter_pos(to.get_char(i)) {
                Some(q) => q,
                None => {
                    proof {
                        assert(is_lower(to@[i as int]));
                    }
                    unreached()
                },
            };
            forward.set(p as usize, q);
            backward.set(q as usize, p);
            i += 1;
        }
        let key = SimpSub { forward, backward };
        proof {
            assert forall|x: int| 0 <= x < 26 implies key.backward@[#[trigger] key.forward@[x] as int] == x by {
                lemma_alpha_perm_onto(from@, x);
                let j = choose|j: int| 0 <= j < 26 && spec_letter_pos(from@[j]) == x;
                assert(key.forward@[x] == spec_letter_pos(to@[j]) as u8);
                assert(key.backward@[spec_letter_pos(to@[j])] == spec_letter_pos(from@[j]) as u8);
            }
            assert forall|y: int| 0 <= y < 26 implies key.forward@[#[trigger] key.backward@[y] as int] == y by {
                lemma_alpha_perm_onto(to@, y);
                let j = choose|j: int| 0 <= j < 26 && spec_letter_pos(to@[j]) == y;
                assert(key.backward@[y] == spec_letter_pos(from@[j]) as u8);
                assert(key.forward@[spec_letter_pos(from@[j])] == spec_letter_pos(to@[j]) as u8);
            }
        }
        Ok(key)
    }

    /// Returns a new key with the images of letters `k0` and `k1` exchanged;
    /// both tables are updated consistently.
    pub fn swap_letters_at(&self, k0: char, k1: char) -> (r: Self)
        requires
            self.wf(),
            is_lower(k0),
            is_lower(k1),
        ensures
            r.forward@ == swap_fwd(self.forward@, spec_letter_pos(k0), spec_letter_pos(k1)),
            r.backward@ == swap_bwd(
                self.forward@,
                self.backward@,
                spec_letter_pos(k0),
                spec_letter_pos(k1),
            ),
            r.wf(),
    {
        let p0 = get_letter_pos(k0).unwrap();
        let p1 = get_letter_pos(k1).unwrap();
        let f0 = self.forward[p0 as usize];
        let f1 = self.forward[p1 as usize];
        let mut r = self.clone();
        r.forward.set(p0 as usize, f1);
        r.forward.set(p1 as usize, f0);
        r.backward.set(f1 as usize, p0);
        r.backward.set(f0 as usize, p1);
        proof {
            lemma_swap_wf(self.forward@, self.backward@, p0 as int, p1 as int);
        }
        r
    }

    /// Forces letter `key` to map to `val`; to preserve bijectivity the letter
    /// that mapped to `val` before is reassigned to the old image of `key`.
    pub fn change_key(&mut self, key: char, val: char)
        requires
            old(self).wf(),
            is_lower(key),
            is_lower(val),
        ensures
            final(self).forward@ == reassign_fwd(
                old(self).forward@,
                old(self).backward@,
                spec_letter_pos(key),
                spec_letter_pos(val),
            ),
            final(self).backward@ == reassign_bwd(
                old(self).forward@,
                old(self).backward@,
                spec_letter_pos(key),
                spec_letter_pos(val),
            ),
            final(self).wf(),
            final(self).fwd(spec_letter_pos(key)) == spec_letter_pos(val),
    {
        let p = get_letter_pos(key).unwrap();
        let v = get_letter_pos(val).unwrap();
        let ov = self.forward[p as usize];
        self.forward.set(p as usize, v);
        let k1 = self.backward[v as usize];
        self.forward.set(k1 as usize, ov);
        self.backward.set(v as usize, p);
        self.backward.set(ov as usize, k1);
        proof {
            lemma_reassign_wf(old(self).forward@, old(self).backward@, p as int, v as int);
        }
    }

    /// Clone-then-mutate variant of [`Self::change_key`].
    pub fn with_key_change(&self, key: char, val: char) -> (r: Self)
        requires
            self.wf(),
            is_lower(key),
            is_lower(val),
        ensures
            r.forward@ == reassign_fwd(
                self.forward@,
                self.backward@,
                spec_letter_pos(key),
                spec_letter_pos(val),
            ),
            r.backward@ == reassign_bwd(
                self.forward@,
                self.backward@,
                spec_letter_pos(key),
                spec_letter_pos(val),
            ),
            r.wf(),
    {
        let mut r = self.clone();
        r.change_key(key, val);
        r
    }
}

/// Declares rand's thread-local generator type, so that keys can be swapped
/// under a caller-supplied generator; the type is opaque to the verifier.
#[verifier::external_type_specification]
#[verifier::external_body]
pub struct ExThreadRng(rand::rngs::ThreadRng);

/// Relies on rand::thread_rng: returns a handle to the thread-local random
/// number generator.
#[verifier::external_body]
pub(crate) fn fresh_rng() -> rand::rngs::ThreadRng {
    rand::thread_rng()
}

/// Relies on rand::Rng::gen_range: a value drawn from the half-open range
/// `0..n` lies below `n`. The range is nonempty, so the call cannot panic.
#[verifier::external_body]
pub(crate) fn rand_below(rng: &mut rand::rngs::ThreadRng, n: usize) -> (r: usize)
    requires
        n >= 1,
    ensures
        r < n,
{
    rand::Rng::gen_range(rng, 0..n)
}

/// The outcome of walking a ciphertext word and a crib of the same length:
/// either the first failure (a committed ciphertext letter, or one ciphertext
/// letter required to take two different images) or the tables after forcing
/// each ciphertext letter's image to the paired crib letter in order.
pub open spec fn crib_apply(
    f: Seq<u8>,
    b: Seq<u8>,
    crypt: Seq<char>,
    crib: Seq<char>,
    used: LetterSet,
    i: int,
) -> Result<(Seq<u8>, Seq<u8>), CipherError>
    decreases crypt.len() - i,
{
    if i < 0 || i >= crypt.len() {
        Ok((f, b))
    } else if used.spec_contains(crypt[i]) {
        Err(CipherError::LetterAlreadyCommitted)
    } else if exists|j: int| 0 <= j < i && crypt[j] == crypt[i] && crib[j] != crib[i] {
        Err(CipherError::InternalConflict)
    } else {
        let p = spec_letter_pos(crypt[i]);
        let v = spec_letter_pos(crib[i]);
        crib_apply(reassign_fwd(f, b, p, v), reassign_bwd(f, b, p, v), crypt, crib, used, i + 1)
    }
}

/// Two lowercase letters with the same alphabet position are the same letter.
proof fn lemma_pos_injective(c: char, d: char)
    requires
        is_lower(c),
        is_lower(d),
        spec_letter_pos(c) == spec_letter_pos(d),
    ensures
        c == d,
{
    assert((c as int) as char == c);
    assert((d as int) as char == d);
}

impl SimpSub {
    /// A new key with a uniformly random permutation, drawn by a
    /// Fisher-Yates shuffle of the identity key.
    pub fn with_rand_key() -> (r: Self)
        ensures
            r.wf(),
    {
        let mut forward: Vec<u8> = Vec::new();
        let mut backward: Vec<u8> = Vec::new();
        let mut i: usize = 0;
        while i < 26
            invariant
                i <= 26,
                forward@.len() == i,
                backward@.len() == i,
                forall|j: int| 0 <= j < i ==> #[trigger] forward@[j] == j as u8,
                forall|j: int| 0 <= j < i ==> #[trigger] backward@[j] == j as u8,
            decreases 26 - i,
        {
            forward.push(i as u8);
            backward.push(i as u8);
            i += 1;
        }
        let mut key = SimpSub { forward, backward };
        let mut rng = fresh_rng();
        let mut i: usize = 0;
        while i < 26
            invariant
                i <= 26,
                key.wf(),
            decreases 26 - i,
        {
            let j = i + rand_below(&mut rng, 26 - i);
            key = key.swap_letters_at(letter_at(i as u8), letter_at(j as u8));
            i += 1;
        }
        key
    }

    /// A new key with the images of two distinct, randomly drawn letters
    /// exchanged. The result always differs from `self`, since the images of
    /// distinct letters are distinct.
    pub fn swap_rand_letters(&self, rng: &mut rand::rngs::ThreadRng) -> (r: Self)
        requires
            self.wf(),
        ensures
            r.wf(),
            exists|p0: int, p1: int|
                0 <= p0 < 26 && 0 <= p1 < 26 && p0 != p1 && r.forward@ == swap_fwd(
                    self.forward@,
                    p0,
                    p1,
                ) && r.backward@ == swap_bwd(self.forward@, self.backward@, p0, p1),
            r.forward@ != self.forward@,
    {
        let a = rand_below(rng, 26);
        let d = rand_below(rng, 25);
        let b = if d >= a {
            d + 1
        } else {
            d
        };
        let r = self.swap_letters_at(letter_at(a as u8), letter_at(b as u8));
        proof {
            let pa = a as int;
            let pb = b as int;
            assert(r.forward@ == swap_fwd(self.forward@, pa, pb));
            assert(self.forward@[pa] != self.forward@[pb]) by {
                assert(self.backward@[self.forward@[pa] as int] == pa);
                assert(self.backward@[self.forward@[pb] as int] == pb);
            }
            assert(r.forward@[pb] != self.forward@[pb]);
        }
        r
    }

    /// Applies the forward mapping letter by letter; uppercase input is folded
    /// to lowercase before lookup, non-letters pass through unchanged.
    pub fn encrypt(&self, text: &str) -> (r: String)
        requires
            self.wf(),
        ensures
            r@ == self.spec_encrypt(text@),
    {
        let n = text.unicode_len();
        let mut out: Vec<char> = Vec::new();
        let mut i: usize = 0;
        while i < n
            invariant
                self.wf(),
                n == text@.len(),
                i <= n,
                out@ == self.spec_encrypt(text@.subrange(0, i as int)),
            decreases n - i,
        {
            let c = text.get_char(i);
            let e = match get_letter_pos(to_lower(c)) {
                Some(p) => letter_at(self.forward[p as usize]),
                None => c,
            };
            out.push(e);
            i += 1;
            proof {
                assert(out@ =~= self.spec_encrypt(text@.subrange(0, i as int)));
            }
        }
        proof {
            assert(text@.subrange(0, n as int) =~= text@);
        }
        chars_to_string(&out)
    }

    /// Applies the backward mapping letter by letter; uppercase input is folded
    /// to lowercase before lookup, non-letters pass through unchanged.
    pub fn decrypt(&self, text: &str) -> (r: String)
        requires
            self.wf(),
        ensures
            r@ == self.spec_decrypt(text@),
    {
        let n = text.unicode_len();
        let mut out: Vec<char> = Vec::new();
        let mut i: usize = 0;
        while i < n
            invariant
                self.wf(),
                n == text@.len(),
                i <= n,
                out@ == self.spec_decrypt(text@.subrange(0, i as int)),
            decreases n - i,
        {
            let c = text.get_char(i);
            let e = match get_letter_pos(to_lower(c)) {
                Some(p) => letter_at(self.backward[p as usize]),
                None => c,
            };
            out.push(e);
            i += 1;
            proof {
                assert(out@ =~= self.spec_decrypt(text@.subrange(0, i as int)));
            }
        }
        proof {
            assert(text@.subrange(0, n as int) =~= text@);
        }
        chars_to_string(&out)
    }

    /// The canonical string form of the key: the domain letters in
    /// alphabetical order, and the letters they map to.
    pub fn key_as_str(&self) -> (r: (String, String))
        requires
            self.wf(),
        ensures
            r.0@ == Seq::new(26, |i: int| letter_of(i)),
            r.1@ == Seq::new(26, |i: int| letter_of(self.fwd(i))),
    {
        let mut dom: Vec<char> = Vec::new();
        let mut img: Vec<char> = Vec::new();
        let mut i: usize = 0;
        while i < 26
            invariant
                self.wf(),
                i <= 26,
                dom@ == Seq::new(i as nat, |j: int| letter_of(j)),
                img@ == Seq::new(i as nat, |j: int| letter_of(self.fwd(j))),
            decreases 26 - i,
        {
            dom.push(letter_at(i as u8));
            img.push(letter_at(self.forward[i]));
            i += 1;
            proof {
                assert(dom@ =~= Seq::new(i as nat, |j: int| letter_of(j)));
                assert(img@ =~= Seq::new(i as nat, |j: int| letter_of(self.fwd(j))));
            }
        }
        (chars_to_string(&dom), chars_to_string(&img))
    }

    /// Alters the key so that the word `crypt` encrypts to the word `crib`,
    /// forcing one letter at a time with [`Self::change_key`].
    ///
    /// Fails with `LetterAlreadyCommitted` when a ciphertext letter is in
    /// `char_used`, and with `InternalConflict` when one ciphertext letter
    /// would need two different images within this one application; the
    /// returned error is the first failure in walking order, as
    /// [`crib_apply`] states.
    pub fn match_crib(&self, crypt: &str, crib: &str, char_used: &LetterSet) -> (r: Result<
        Self,
        CipherError,
    >)
        requires
            self.wf(),
            char_used.wf(),
            crypt@.len() == crib@.len(),
            forall|i: int| 0 <= i < crypt@.len() ==> is_lower(#[trigger] crypt@[i]),
            forall|i: int| 0 <= i < crib@.len() ==> is_lower(#[trigger] crib@[i]),
        ensures
            ({
                let outcome = crib_apply(
                    self.forward@,
                    self.backward@,
                    crypt@,
                    crib@,
                    *char_used,
                    0,
                );
                match r {
                    Ok(k) => outcome matches Ok(fb) && k.forward@ == fb.0 && k.backward@ == fb.1
                        && k.wf(),
                    Err(e) => outcome == Err::<(Seq<u8>, Seq<u8>), CipherError>(e),
                }
            }),
    {
        let n = crypt.unicode_len();
        let mut new_coder = self.clone();
        let mut mem: Vec<u8> = vec![255u8; 26];
        let mut i: usize = 0;
        while i < n
            invariant
                self.wf(),
                char_used.wf(),
                new_coder.wf(),
                n == crypt@.len(),
                crypt@.len() == crib@.len(),
                forall|j: int| 0 <= j < crypt@.len() ==> is_lower(#[trigger] crypt@[j]),
                forall|j: int| 0 <= j < crib@.len() ==> is_lower(#[trigger] crib@[j]),
                i <= n,
                mem@.len() == 26,
                forall|p: int, j: int|
                    0 <= p < 26 && 0 <= j < i && spec_letter_pos(#[trigger] crypt@[j]) == p
                        ==> #[trigger] mem@[p] == spec_letter_pos(crib@[j]) as u8,
                forall|p: int|
                    0 <= p < 26 && #[trigger] mem@[p] != 255 ==> exists|j: int|
                        0 <= j < i && spec_letter_pos(#[trigger] crypt@[j]) == p && mem@[p]
                            == spec_letter_pos(crib@[j]) as u8,
                crib_apply(self.forward@, self.backward@, crypt@, crib@, *char_used, 0)
                    == crib_apply(
                    new_coder.forward@,
                    new_coder.backward@,
                    crypt@,
                    crib@,
                    *char_used,
                    i as int,
                ),
            decreases n - i,
        {
            let cc = crypt.get_char(i);
            let bc = crib.get_char(i);
            if char_used.contains(cc) {
                return Err(CipherError::LetterAlreadyCommitted);
            }
            let p = get_letter_pos(cc).unwrap();
            let v = get_letter_pos(bc).unwrap();
            let m = mem[p as usize];
            if m != 255 && m != v {
                proof {
                    let j = choose|j: int|
                        0 <= j < i && spec_letter_pos(crypt@[j]) == p as int && mem@[p as int]
                            == spec_letter_pos(crib@[j]) as u8;
                    lemma_pos_injective(crypt@[j], crypt@[i as int]);
                    assert(crib@[j] != crib@[i as int]);
                }
                return Err(CipherError::InternalConflict);
            }
            proof {
                let ci = crypt@[i as int];
                let bi = crib@[i as int];
                assert(!(exists|j: int| 0 <= j < i && crypt@[j] == ci && crib@[j] != bi)) by {
                    if exists|j: int| 0 <= j < i && crypt@[j] == ci && crib@[j] != bi {
                        let j = choose|j: int| 0 <= j < i && crypt@[j] == ci && crib@[j] != bi;
                        assert(spec_letter_pos(crypt@[j]) == p as int);
                        assert(mem@[p as int] == spec_letter_pos(crib@[j]) as u8);
                        assert(m == v);
                        lemma_pos_injective(crib@[j], bi);
                    }
                }
            }
            let ghost nc0 = new_coder;
            let ghost mem0 = mem@;
            new_coder.change_key(cc, bc);
            mem.set(p as usize, v);
            i += 1;
            proof {
                let ii = i - 1;
                // the walk's fold steps from index ii to index i
                assert(crib_apply(nc0.forward@, nc0.backward@, crypt@, crib@, *char_used, ii)
                    == crib_apply(
                    new_coder.forward@,
                    new_coder.backward@,
                    crypt@,
                    crib@,
                    *char_used,
                    i as int,
                ));
                // the memory of forced pairs still matches the walked prefix
                assert forall|q: int, j: int|
                    0 <= q < 26 && 0 <= j < i && spec_letter_pos(#[trigger] crypt@[j]) == q
                        implies #[trigger] mem@[q] == spec_letter_pos(crib@[j]) as u8 by {
                    if j < ii && q == p as int {
                        assert(mem0[q] == spec_letter_pos(crib@[j]) as u8);
                        assert(mem0[q] != 255);
                        assert(m == v);
                    }
                }
                assert forall|q: int| 0 <= q < 26 && #[trigger] mem@[q] != 255 implies exists|
                    j: int,
                |
                    0 <= j < i && spec_letter_pos(#[trigger] crypt@[j]) == q && mem@[q]
                        == spec_letter_pos(crib@[j]) as u8 by {
                    if q == p as int {
                        assert(0 <= ii < i && spec_letter_pos(crypt@[ii]) == q && mem@[q]
                            == spec_letter_pos(crib@[ii]) as u8);
                    } else {
                        let j = choose|j: int|
                            0 <= j < ii && spec_letter_pos(#[trigger] crypt@[j]) == q && mem0[q]
                                == spec_letter_pos(crib@[j]) as u8;
                        assert(0 <= j < i && spec_letter_pos(crypt@[j]) == q && mem@[q]
                            == spec_letter_pos(crib@[j]) as u8);
                    }
                }
            }
        }
        Ok(new_coder)
    }
}

/// The concatenation of a sequence of words into one character stream.
pub open spec fn concat_words(ws: Seq<Seq<char>>) -> Seq<char>
    decreases ws.len(),
{
    if ws.len() == 0 {
        Seq::empty()
    } else {
        concat_words(ws.drop_last()) + ws.last()
    }
}

/// Decryption of one character under the backward table `b` alone.
pub open spec fn dec_char_of(b: Seq<u8>, c: char) -> char {
    if is_lower(c) || is_upper(c) {
        letter_of(b[spec_letter_pos(spec_to_lower(c))] as int)
    } else {
        c
    }
}

/// Decryption of a character sequence under the backward table `b` alone.
pub open spec fn decrypt_of(b: Seq<u8>, s: Seq<char>) -> Seq<char> {
    s.map_values(|c: char| dec_char_of(b, c))
}

/// The score of decrypting the concatenated words under backward table `b`.
pub open spec fn score_of(b: Seq<u8>, ws: Seq<Seq<char>>, ng: NGram) -> int {
    ng.spec_score(decrypt_of(b, concat_words(ws)))
}

/// One step of the hill-climbing sweep: swap the images of positions `p0` and
/// `p1`, and keep the swapped key exactly when it scores strictly higher.
pub open spec fn sweep_step(
    f: Seq<u8>,
    b: Seq<u8>,
    p0: int,
    p1: int,
    ws: Seq<Seq<char>>,
    ng: NGram,
) -> (Seq<u8>, Seq<u8>) {
    let f2 = swap_fwd(f, p0, p1);
    let b2 = swap_bwd(f, b, p0, p1);
    if score_of(b2, ws, ng) > score_of(b, ws, ng) {
        (f2, b2)
    } else {
        (f, b)
    }
}

/// The state of the key after greedily trying, in scan order, every pair
/// `(i, j)` with `i <= j < 26` from the given pair onward.
pub open spec fn sweep_from(
    f: Seq<u8>,
    b: Seq<u8>,
    i: int,
    j: int,
    ws: Seq<Seq<char>>,
    ng: NGram,
) -> (Seq<u8>, Seq<u8>)
    decreases 26 - i, 26 - j,
{
    if i < 0 || i >= 26 {
        (f, b)
    } else if j < 0 || j >= 26 {
        sweep_from(f, b, i + 1, i + 1, ws, ng)
    } else {
        let fb = sweep_step(f, b, i, j, ws, ng);
        sweep_from(fb.0, fb.1, i, j + 1, ws, ng)
    }
}

impl SimpSub {
    /// Decrypts every word and flattens the results into one character
    /// stream, the input of scoring.
    pub fn decrypt_words_to_chars(&self, words: &Vec<String>) -> (r: Vec<char>)
        requires
            self.wf(),
        ensures
            r@ == decrypt_of(self.backward@, concat_words(word_views(words@))),
    {
        let n = words.len();
        let mut out: Vec<char> = Vec::new();
        let mut i: usize = 0;
        proof {
            assert(word_views(words@).subrange(0, 0) =~= Seq::<Seq<char>>::empty());
            assert(out@ =~= decrypt_of(
                self.backward@,
                concat_words(word_views(words@).subrange(0, 0)),
            ));
        }
        while i < n
            invariant
                self.wf(),
                n == words@.len(),
                i <= n,
                out@ == decrypt_of(self.backward@, concat_words(word_views(words@).subrange(0, i as int))),
            decreases n - i,
        {
            let d = self.decrypt(words[i].as_str());
            let mut cs = str_to_chars(d.as_str());
            out.append(&mut cs);
            i += 1;
            proof {
                let wv = word_views(words@);
                assert(wv.subrange(0, i as int).drop_last() =~= wv.subrange(0, i - 1));
                assert(wv.subrange(0, i as int).last() == wv[i - 1]);
                assert(wv[i - 1] == words@[i - 1]@);
                assert(self.spec_decrypt(wv[i - 1]) =~= decrypt_of(self.backward@, wv[i - 1]));
                assert(out@ =~= decrypt_of(
                    self.backward@,
                    concat_words(wv.subrange(0, i as int)),
                ));
            }
        }
        proof {
            assert(word_views(words@).subrange(0, n as int) =~= word_views(words@));
        }
        out
    }

    /// Decrypts the words and calculates the n-gram score of the result.
    pub fn de_score(&self, words: &Vec<String>, ngram: &NGram) -> (r: i64)
        requires
            self.wf(),
            ngram.wf(),
            concat_words(word_views(words@)).len() <= 1_000_000_000,
        ensures
            r == score_of(self.backward@, word_views(words@), *ngram),
    {
        let chars = self.decrypt_words_to_chars(words);
        ngram.score_chars(chars.as_slice())
    }
}

/// A search candidate: a key, whether it was the first of the two compared,
/// and its score.
pub struct SubComp {
    pub cipher: SimpSub,
    pub first: bool,
    pub score: i64,
}

/// Returns the better-scoring of two keys; the first wins only by scoring
/// strictly higher.
pub fn choose_better(cipher0: SimpSub, cipher1: SimpSub, words: &Vec<String>, ngram: &NGram) -> (r:
    SubComp)
    requires
        cipher0.wf(),
        cipher1.wf(),
        ngram.wf(),
        concat_words(word_views(words@)).len() <= 1_000_000_000,
    ensures
        r.first == (score_of(cipher0.backward@, word_views(words@), *ngram) > score_of(
            cipher1.backward@,
            word_views(words@),
            *ngram,
        )),
        r.cipher == if r.first {
            cipher0
        } else {
            cipher1
        },
        r.cipher.wf(),
        r.score == score_of(r.cipher.backward@, word_views(words@), *ngram),
{
    let score0 = cipher0.de_score(words, ngram);
    let score1 = cipher1.de_score(words, ngram);
    if score0 > score1 {
        SubComp { cipher: cipher0, first: true, score: score0 }
    } else {
        SubComp { cipher: cipher1, first: false, score: score1 }
    }
}

/// One full greedy sweep over all unordered letter pairs: tries every swap of
/// two images in scan order and keeps each one that strictly improves the
/// score. Returns the key the sweep ends on and its score, which never falls
/// below the starting key's score.
pub fn improve(cipher: SimpSub, words: &Vec<String>, ngram: &NGram) -> (r: (SimpSub, i64))
    requires
        cipher.wf(),
        ngram.wf(),
        concat_words(word_views(words@)).len() <= 1_000_000_000,
    ensures
        r.0.wf(),
        ({
            let fb = sweep_from(cipher.forward@, cipher.backward@, 0, 0, word_views(words@), *ngram);
            r.0.forward@ == fb.0 && r.0.backward@ == fb.1
        }),
        r.1 == score_of(r.0.backward@, word_views(words@), *ngram),
        r.1 >= score_of(cipher.backward@, word_views(words@), *ngram),
{
    let ghost ws = word_views(words@);
    let ghost f0 = cipher.forward@;
    let ghost b0 = cipher.backward@;
    let mut cur = cipher;
    let mut score = cur.de_score(words, ngram);
    let mut i: usize = 0;
    while i < 26
        invariant
            cur.wf(),
            ngram.wf(),
            ws == word_views(words@),
            concat_words(ws).len() <= 1_000_000_000,
            i <= 26,
            score == score_of(cur.backward@, ws, *ngram),
            score >= score_of(b0, ws, *ngram),
            sweep_from(f0, b0, 0, 0, ws, *ngram) == sweep_from(
                cur.forward@,
                cur.backward@,
                i as int,
                i as int,
                ws,
                *ngram,
            ),
        decreases 26 - i,
    {
        let mut j: usize = i;
        while j < 26
            invariant
                cur.wf(),
                ngram.wf(),
                ws == word_views(words@),
                concat_words(ws).len() <= 1_000_000_000,
                i < 26,
                i <= j <= 26,
                score == score_of(cur.backward@, ws, *ngram),
                score >= score_of(b0, ws, *ngram),
                sweep_from(f0, b0, 0, 0, ws, *ngram) == sweep_from(
                    cur.forward@,
                    cur.backward@,
                    i as int,
                    j as int,
                    ws,
                    *ngram,
                ),
            decreases 26 - j,
        {
            let c1 = letter_at(i as u8);
            let c2 = letter_at(j as u8);
            let ghost prev = cur;
            let cand = cur.swap_letters_at(c1, c2);
            let cand_score = cand.de_score(words, ngram);
            if cand_score > score {
                cur = cand;
                score = cand_score;
            }
            j += 1;
            proof {
                assert(sweep_step(prev.forward@, prev.backward@, i as int, j - 1, ws, *ngram) == (
                    cur.forward@,
                    cur.backward@,
                ));
            }
        }
        i += 1;
    }
    (cur, score)
}

/// The words that a search scores: the text folded to lowercase, split on
/// whitespace, with the fixed punctuation set stripped from each token.
pub open spec fn spec_words(s: Seq<char>) -> Seq<Seq<char>> {
    spec_split_ws(s.map_values(|c: char| spec_to_lower(c))).map_values(
        |w: Seq<char>| w.filter(|c: char| !is_punct(c)),
    )
}

/// Splitting never yields more characters than the split text holds.
proof fn lemma_split_concat_len_from(s: Seq<char>, i: int, cur: Seq<char>, acc: Seq<Seq<char>>)
    requires
        0 <= i <= s.len(),
    ensures
        concat_words(split_ws_from(s, i, cur, acc)).len() <= concat_words(acc).len() + cur.len() + (
        s.len() - i),
    decreases s.len() - i,
{
    if i >= s.len() {
        if cur.len() > 0 {
            assert(acc.push(cur).drop_last() =~= acc);
        }
    } else if is_space(s[i]) {
        if cur.len() > 0 {
            lemma_split_concat_len_from(s, i + 1, Seq::empty(), acc.push(cur));
            assert(acc.push(cur).drop_last() =~= acc);
        } else {
            lemma_split_concat_len_from(s, i + 1, Seq::empty(), acc);
        }
    } else {
        lemma_split_concat_len_from(s, i + 1, cur.push(s[i]), acc);
    }
}

/// Stripping punctuation never grows the concatenated stream.
proof fn lemma_concat_filter_le(ws: Seq<Seq<char>>)
    ensures
        concat_words(ws.map_values(|w: Seq<char>| w.filter(|c: char| !is_punct(c)))).len()
            <= concat_words(ws).len(),
    decreases ws.len(),
{
    let f = |w: Seq<char>| w.filter(|c: char| !is_punct(c));
    if ws.len() > 0 {
        lemma_concat_filter_le(ws.drop_last());
        assert(ws.map_values(f).drop_last() =~= ws.drop_last().map_values(f));
        ws.last().lemma_filter_len(|c: char| !is_punct(c));
    } else {
        assert(ws.map_values(f).len() == 0);
    }
}

/// The scored character stream of a text is no longer than the text.
pub proof fn lemma_words_len(s: Seq<char>)
    ensures
        concat_words(spec_words(s)).len() <= s.len(),
{
    let low = s.map_values(|c: char| spec_to_lower(c));
    lemma_split_concat_len_from(low, 0, Seq::empty(), Seq::empty());
    assert(concat_words(Seq::<Seq<char>>::empty()).len() == 0);
    lemma_concat_filter_le(spec_split_ws(low));
}

/// Runs [`improve`] on every starting key, in parallel, and collects the
/// optimized keys with their scores, in order.
///
/// Relies on rayon's parallel iterator `map` and `collect`: the closure is
/// applied to each element and the results are collected in input order. The
/// closure only calls the verified [`improve`], whose contract gives each
/// element's stated value; the workers share no mutable state.
#[verifier::external_body]
fn par_improve(keys: Vec<SimpSub>, words: &Vec<String>, ngram: &NGram) -> (r: Vec<(SimpSub, i64)>)
    requires
        forall|i: int| 0 <= i < keys@.len() ==> (#[trigger] keys@[i]).wf(),
        ngram.wf(),
        concat_words(word_views(words@)).len() <= 1_000_000_000,
    ensures
        r@.len() == keys@.len(),
        forall|i: int|
            0 <= i < r@.len() ==> ({
                let fb = sweep_from(
                    keys@[i].forward@,
                    keys@[i].backward@,
                    0,
                    0,
                    word_views(words@),
                    *ngram,
                );
                (#[trigger] r@[i]).0.wf() && r@[i].0.forward@ == fb.0 && r@[i].0.backward@ == fb.1
                    && r@[i].1 == score_of(fb.1, word_views(words@), *ngram) && r@[i].1 >= score_of(
                    keys@[i].backward@,
                    word_views(words@),
                    *ngram,
                )
            }),
{
    rayon::iter::ParallelIterator::collect(
        rayon::iter::ParallelIterator::map(
            rayon::iter::IntoParallelIterator::into_par_iter(keys),
            |k| improve(k, words, ngram),
        ),
    )
}

/// Runs a random guess and check crack: `nhills` independent random starting
/// keys, one greedy sweep on each in parallel, reduced to the single
/// best-scoring candidate. Returns that key and its score over the words of
/// `text`.
pub fn rand_crack(text: &str, ngram: &NGram, nhills: usize) -> (r: (SimpSub, i64))
    requires
        ngram.wf(),
        text@.len() <= 1_000_000_000,
    ensures
        r.0.wf(),
        r.1 == score_of(r.0.backward@, spec_words(text@), *ngram),
{
    let words = words_of_text(text);
    proof {
        lemma_words_len(text@);
    }
    let mut keys: Vec<SimpSub> = Vec::new();
    let mut i: usize = 0;
    while i < nhills
        invariant
            forall|j: int| 0 <= j < keys@.len() ==> (#[trigger] keys@[j]).wf(),
        decreases nhills - i,
    {
        keys.push(SimpSub::with_rand_key());
        i += 1;
    }
    if keys.len() == 0 {
        // stands in for the reduction identity of an empty parallel run
        keys.push(SimpSub::with_rand_key());
    }
    let results = par_improve(keys, &words, ngram);
    let mut best: usize = 0;
    let mut bi: usize = 1;
    while bi < results.len()
        invariant
            results@.len() >= 1,
            best < results@.len(),
            bi <= results@.len(),
        decreases results@.len() - bi,
    {
        if results[bi].1 > results[best].1 {
            best = bi;
        }
        bi += 1;
    }
    let chosen = results[best].0.clone();
    let sc = results[best].1;
    (chosen, sc)
}

/// The word list that a search scores, built from the raw text.
fn words_of_text(text: &str) -> (r: Vec<String>)
    ensures
        word_views(r@) == spec_words(text@),
{
    let lower = to_lower_str(text);
    let toks = split_whitespace_words(lower.as_str());
    let mut words: Vec<String> = Vec::new();
    let mut i: usize = 0;
    proof {
        assert(word_views(words@) =~= spec_words(text@).subrange(0, 0));
    }
    while i < toks.len()
        invariant
            word_views(toks@) == spec_split_ws(text@.map_values(|c: char| spec_to_lower(c))),
            i <= toks@.len(),
            word_views(words@) == spec_words(text@).subrange(0, i as int),
        decreases toks@.len() - i,
    {
        let w = rm_punct(toks[i].as_str());
        let ghost old_words = words@;
        let ghost wv = w@;
        words.push(w);
        i += 1;
        proof {
            assert(word_views(words@) =~= word_views(old_words).push(wv));
            let low = text@.map_values(|c: char| spec_to_lower(c));
            let sw = spec_words(text@);
            assert(toks@[i - 1]@ == spec_split_ws(low)[i - 1]);
            assert(sw[i - 1] == spec_split_ws(low)[i - 1].filter(|c: char| !is_punct(c)));
            assert(w@ == toks@[i - 1]@.filter(|c: char| !is_punct(c)));
            assert(word_views(words@) =~= sw.subrange(0, i as int));
        }
    }
    proof {
        assert(spec_words(text@).subrange(0, spec_words(text@).len() as int) =~= spec_words(
            text@,
        ));
    }
    words
}

/// The number of occurrences of the word `w` in `ws`.
pub open spec fn count_of(ws: Seq<Seq<char>>, w: Seq<char>) -> int {
    ws.filter(|x: Seq<char>| x == w).len() as int
}

/// Counts the occurrences of `w` in `list`.
fn count_occurrences(list: &Vec<String>, w: &String) -> (r: usize)
    ensures
        r == count_of(word_views(list@), w@),
        r <= list@.len(),
{
    let n = list.len();
    let mut cnt: usize = 0;
    let mut i: usize = 0;
    proof {
        assert(word_views(list@).subrange(0, 0) =~= Seq::<Seq<char>>::empty());
        reveal(Seq::filter);
    }
    while i < n
        invariant
            n == list@.len(),
            i <= n,
            cnt <= i,
            cnt == count_of(word_views(list@).subrange(0, i as int), w@),
        decreases n - i,
    {
        if list[i] == *w {
            cnt += 1;
        }
        i += 1;
        proof {
            reveal(Seq::filter);
            let wv = word_views(list@);
            assert(wv.subrange(0, i as int).drop_last() =~= wv.subrange(0, i - 1));
            assert(wv.subrange(0, i as int).last() == wv[i - 1]);
            assert(wv[i - 1] == list@[i - 1]@);
        }
    }
    proof {
        assert(word_views(list@).subrange(0, n as int) =~= word_views(list@));
    }
    cnt
}

/// Some entry of the frequency list `r` holds the word `w`.
pub open spec fn has_word(r: Seq<(String, usize)>, w: Seq<char>) -> bool {
    exists|k: int| 0 <= k < r.len() && (#[trigger] r[k]).0@ == w
}

/// Builds the frequency list of the distinct words of `list`, in ascending
/// order of occurrence count: every distinct word appears exactly once, with
/// its exact count.
#[verifier::loop_isolation(false)]
pub fn freq_list(list: &Vec<String>) -> (r: Vec<(String, usize)>)
    ensures
        forall|k: int|
            0 <= k < r@.len() ==> (#[trigger] r@[k]).1 == count_of(word_views(list@), r@[k].0@)
                && r@[k].1 >= 1,
        forall|k1: int, k2: int| 0 <= k1 < k2 < r@.len() ==> r@[k1].0@ != r@[k2].0@,
        forall|k1: int, k2: int| 0 <= k1 < k2 < r@.len() ==> r@[k1].1 <= r@[k2].1,
        forall|i: int| 0 <= i < list@.len() ==> has_word(r@, #[trigger] list@[i]@),
{
    let n = list.len();
    let mut r: Vec<(String, usize)> = Vec::new();
    let mut i: usize = 0;
    while i < n
        invariant
            n == list@.len(),
            i <= n,
            forall|k: int|
                0 <= k < r@.len() ==> (#[trigger] r@[k]).1 == count_of(word_views(list@), r@[k].0@)
                    && r@[k].1 >= 1,
            forall|k1: int, k2: int| 0 <= k1 < k2 < r@.len() ==> r@[k1].0@ != r@[k2].0@,
            forall|k1: int, k2: int| 0 <= k1 < k2 < r@.len() ==> r@[k1].1 <= r@[k2].1,
            forall|t: int| 0 <= t < i ==> has_word(r@, #[trigger] list@[t]@),
        decreases n - i,
    {
        // skip words that already have an entry
        let mut seen = false;
        let mut k: usize = 0;
        while k < r.len()
            invariant
                k <= r@.len(),
                seen <==> exists|t: int| 0 <= t < k && (#[trigger] r@[t]).0@ == list@[i as int]@,
                forall|t: int| 0 <= t < i ==> has_word(r@, #[trigger] list@[t]@),
                i < n,
                n == list@.len(),
            decreases r@.len() - k,
        {
            if r[k].0 == list[i] {
                seen = true;
            }
            k += 1;
        }
        if !seen {
            let cnt = count_occurrences(list, &list[i]);
            proof {
                reveal(Seq::filter);
                let wv = word_views(list@);
                wv.lemma_filter_contains(|x: Seq<char>| x == list@[i as int]@, i as int);
                let fil = wv.filter(|x: Seq<char>| x == list@[i as int]@);
                assert(fil.contains(wv[i as int]));
                let fi = choose|fi: int| 0 <= fi < fil.len() && fil[fi] == wv[i as int];
                assert(cnt >= 1);
            }
            // insert before the first strictly larger count
            let mut p: usize = 0;
            while p < r.len() && r[p].1 <= cnt
                invariant
                    p <= r@.len(),
                    forall|t: int| 0 <= t < p ==> (#[trigger] r@[t]).1 <= cnt,
                decreases r@.len() - p,
            {
                p += 1;
            }
            let ghost old_r = r@;
            r.insert(p, (list[i].clone(), cnt));
            proof {
                old_r.insert_ensures(p as int, (list@[i as int], cnt as usize));
                assert forall|t: int| 0 <= t < i + 1 implies has_word(
                    r@,
                    #[trigger] list@[t]@,
                ) by {
                    if t < i {
                        let k0 = choose|k0: int|
                            0 <= k0 < old_r.len() && (#[trigger] old_r[k0]).0@ == list@[t]@;
                        if k0 < p {
                            assert(r@[k0].0@ == list@[t]@);
                        } else {
                            assert(r@[k0 + 1].0@ == list@[t]@);
                        }
                    } else {
                        assert(r@[p as int].0@ == list@[t]@);
                    }
                }
            }
        }
        proof {
            if seen {
                let t0 = choose|t0: int|
                    0 <= t0 < r@.len() && (#[trigger] r@[t0]).0@ == list@[i as int]@;
                assert(0 <= t0 < r@.len() && r@[t0].0@ == list@[i as int]@);
                assert(has_word(r@, list@[i as int]@));
            }
        }
        i += 1;
    }
    r
}

/// Cracks `text` under a budget of `limit` random swap trials, after
/// pre-seeding a random key with short-word heuristics.
///
/// In order: words are bucketed by length; a single distinct one-letter word
/// is tried as `'a'` and as `'i'` and the better key kept, while two distinct
/// one-letter words are assigned `'a'` (the more frequent) and `'i'` outright;
/// each distinct two-letter word, from least to most frequent, is matched
/// against the two-letter crib catalogue, keeping a matched key only when it
/// scores higher and releasing the crib's letters when it does not; finally
/// `limit` single random swaps are tried, keeping each one that scores
/// higher. One-letter words that are not letters, and two-letter words with
/// non-letter characters, cannot be forced into the key and are skipped.
pub fn crack(text: &str, limit: usize, ngram: &NGram) -> (r: SimpSub)
    requires
        ngram.wf(),
        text@.len() <= 1_000_000_000,
    ensures
        r.wf(),
{
    let words = words_of_text(text);
    proof {
        lemma_words_len(text@);
    }
    let mut len1: Vec<String> = Vec::new();
    let mut len2: Vec<String> = Vec::new();
    let mut len3: Vec<String> = Vec::new();
    let mut i: usize = 0;
    while i < words.len()
        invariant
            i <= words@.len(),
        decreases words@.len() - i,
    {
        let w = &words[i];
        let l = w.as_str().unicode_len();
        if l == 1 {
            len1.push(w.clone());
        } else if l == 2 {
            len2.push(w.clone());
        } else if l == 3 {
            len3.push(w.clone());
        }
        i += 1;
    }
    let mut freqs1 = freq_list(&len1);
    let mut cipher = SimpSub::with_rand_key();
    // letters that the accepted cribs have already committed
    let mut letters_used = LetterSet::new();
    // the only one-letter English words are 'a' and 'i', and 'a' is more
    // common: with one distinct candidate try both, with two assign directly
    if freqs1.len() == 1 && len1.len() >= 1 && len1[0].as_str().unicode_len() >= 1 {
        let c = len1[0].as_str().get_char(0);
        if get_letter_pos(c).is_some() {
            let try_a = cipher.with_key_change(c, 'a');
            let try_i = cipher.with_key_change(c, 'i');
            cipher = choose_better(try_a, try_i, &words, ngram).cipher;
        }
    } else if len1.len() == 2 && freqs1.len() >= 2 {
        let e_a = match freqs1.pop() {
            Some(e) => e,
            None => unreached(),
        };
        let e_i = match freqs1.pop() {
            Some(e) => e,
            None => unreached(),
        };
        if e_a.0.as_str().unicode_len() >= 1 && e_i.0.as_str().unicode_len() >= 1 {
            let ca = e_a.0.as_str().get_char(0);
            let ci = e_i.0.as_str().get_char(0);
            if get_letter_pos(ca).is_some() && get_letter_pos(ci).is_some() {
                cipher.change_key(ca, 'a');
                cipher.change_key(ci, 'i');
            }
        }
    }
    let freqs2 = freq_list(&len2);
    let cribs = cribs_l2();
    let mut wi: usize = 0;
    while wi < freqs2.len()
        invariant
            cipher.wf(),
            letters_used.wf(),
            ngram.wf(),
            concat_words(word_views(words@)).len() <= 1_000_000_000,
            wi <= freqs2@.len(),
            cribs@.len() == 24,
            forall|t: int|
                0 <= t < 24 ==> (#[trigger] cribs@[t])@.len() == 2 && is_lower(cribs@[t]@[0])
                    && is_lower(cribs@[t]@[1]),
        decreases freqs2@.len() - wi,
    {
        let word2 = &freqs2[wi].0;
        if word2.as_str().unicode_len() == 2 {
            let w0 = word2.as_str().get_char(0);
            let w1 = word2.as_str().get_char(1);
            if get_letter_pos(w0).is_some() && get_letter_pos(w1).is_some() {
                let mut ci: usize = 0;
                while ci < cribs.len()
                    invariant
                        cipher.wf(),
                        letters_used.wf(),
                        ngram.wf(),
                        concat_words(word_views(words@)).len() <= 1_000_000_000,
                        ci <= cribs@.len(),
                        cribs@.len() == 24,
                        word2@.len() == 2,
                        is_lower(word2@[0]),
                        is_lower(word2@[1]),
                        forall|t: int|
                            0 <= t < 24 ==> (#[trigger] cribs@[t])@.len() == 2 && is_lower(
                                cribs@[t]@[0],
                            ) && is_lower(cribs@[t]@[1]),
                    decreases cribs@.len() - ci,
                {
                    let crib = &cribs[ci];
                    let b0 = crib.as_str().get_char(0);
                    let b1 = crib.as_str().get_char(1);
                    letters_used.insert(b0);
                    letters_used.insert(b1);
                    match cipher.match_crib(word2.as_str(), crib.as_str(), &letters_used) {
                        Ok(new_cipher) => {
                            let result = choose_better(cipher, new_cipher, &words, ngram);
                            cipher = result.cipher;
                            let crib_not_used = result.first;
                            if crib_not_used {
                                letters_used.remove(b0);
                                letters_used.remove(b1);
                            }
                        },
                        Err(_) => {},
                    }
                    ci += 1;
                }
            }
        }
        wi += 1;
    }
    // randomized refinement: a simple stochastic hill-climb over the budget
    let mut rng = fresh_rng();
    let mut trial: usize = 0;
    while trial < limit
        invariant
            cipher.wf(),
            ngram.wf(),
            concat_words(word_views(words@)).len() <= 1_000_000_000,
        decreases limit - trial,
    {
        let cand = cipher.swap_rand_letters(&mut rng);
        cipher = choose_better(cipher, cand, &words, ngram).cipher;
        trial += 1;
    }
    cipher
}

/// For all valid keys, `forward` and `backward` are exact inverses:
/// decrypting an encryption returns the original text, for any text without
/// uppercase letters (lowercase letters round-trip through the two tables,
/// non-letters pass through unchanged in both directions).
pub proof fn lemma_decrypt_encrypt(k: SimpSub, s: Seq<char>)
    requires
        k.wf(),
        forall|i: int| 0 <= i < s.len() ==> !is_upper(#[trigger] s[i]),
    ensures
        k.spec_decrypt(k.spec_encrypt(s)) == s,
{
    let e = k.spec_encrypt(s);
    assert forall|i: int| 0 <= i < s.len() implies k.dec_char(k.enc_char(s[i])) == s[i] by {
        let c = s[i];
        if is_lower(c) {
            let p = spec_letter_pos(c);
            let fc = letter_of(k.fwd(p));
            assert(is_lower(fc));
            assert(spec_letter_pos(fc) == k.fwd(p));
            assert(k.bwd(k.fwd(p)) == p);
            assert(letter_of(p) == c) by {
                assert((c as int) as char == c);
            }
        }
    }
    assert(k.spec_decrypt(e) =~= s);
}

/// Swapping the images of the same two letters twice restores the key
/// exactly (pair swaps are self-inverse).
pub proof fn lemma_swap_self_inverse(k: SimpSub, a: char, b: char)
    requires
        k.wf(),
        is_lower(a),
        is_lower(b),
    ensures
        ({
            let pa = spec_letter_pos(a);
            let pb = spec_letter_pos(b);
            let f1 = swap_fwd(k.forward@, pa, pb);
            let b1 = swap_bwd(k.forward@, k.backward@, pa, pb);
            swap_fwd(f1, pa, pb) == k.forward@ && swap_bwd(f1, b1, pa, pb) == k.backward@
        }),
{
    let pa = spec_letter_pos(a);
    let pb = spec_letter_pos(b);
    let f1 = swap_fwd(k.forward@, pa, pb);
    let b1 = swap_bwd(k.forward@, k.backward@, pa, pb);
    assert(swap_fwd(f1, pa, pb) =~= k.forward@);
    assert(swap_bwd(f1, b1, pa, pb) =~= k.backward@) by {
        if pa != pb {
            assert(k.forward@[pa] != k.forward@[pb]) by {
                assert(k.backward@[k.forward@[pa] as int] == pa);
                assert(k.backward@[k.forward@[pb] as int] == pb);
            }
            assert(k.backward@[k.forward@[pa] as int] == pa);
            assert(k.backward@[k.forward@[pb] as int] == pb);
        }
    }
}

/// The position pairs of `crypt` and `crib` agree: two positions share the
/// ciphertext letter exactly when they share the crib letter.
pub open spec fn pairs_consistent(crypt: Seq<char>, crib: Seq<char>) -> bool {
    forall|x: int, y: int|
        0 <= x < crypt.len() && 0 <= y < crypt.len() ==> ((#[trigger] crypt[x] == #[trigger] crypt[y])
            <==> crib[x] == crib[y])
}

/// An image that agrees with every remaining pair survives the rest of a
/// successful crib walk.
proof fn lemma_crib_apply_preserves(
    f: Seq<u8>,
    b: Seq<u8>,
    crypt: Seq<char>,
    crib: Seq<char>,
    used: LetterSet,
    i: int,
    p: int,
    v: int,
)
    requires
        tables_wf(f, b),
        crypt.len() == crib.len(),
        forall|j: int| 0 <= j < crypt.len() ==> is_lower(#[trigger] crypt[j]),
        forall|j: int| 0 <= j < crib.len() ==> is_lower(#[trigger] crib[j]),
        0 <= p < 26,
        0 <= v < 26,
        f[p] == v as u8,
        forall|j: int|
            i <= j < crypt.len() ==> (spec_letter_pos(#[trigger] crypt[j]) == p <==> spec_letter_pos(
                crib[j],
            ) == v),
        crib_apply(f, b, crypt, crib, used, i) is Ok,
    ensures
        crib_apply(f, b, crypt, crib, used, i)->Ok_0.0[p] == v as u8,
    decreases crypt.len() - i,
{
    if i < 0 || i >= crypt.len() {
    } else {
        let pi = spec_letter_pos(crypt[i]);
        let vi = spec_letter_pos(crib[i]);
        let f1 = reassign_fwd(f, b, pi, vi);
        let b1 = reassign_bwd(f, b, pi, vi);
        lemma_reassign_wf(f, b, pi, vi);
        if pi == p {
            assert(vi == v);
            assert(b[vi] == p as u8);
            assert(f1[p] == v as u8);
        } else {
            assert(vi != v);
            assert(b[vi] as int != p) by {
                assert(f[b[vi] as int] == vi as u8);
            }
            assert(f1[p] == v as u8);
        }
        lemma_crib_apply_preserves(f1, b1, crypt, crib, used, i + 1, p, v);
    }
}

/// A successful crib application really forces the whole word: when the
/// position pairs of the two words are consistent, the key that comes out of
/// the walk maps each ciphertext letter of `crypt` to the crib letter paired
/// with it.
pub proof fn lemma_crib_apply_assigns(
    f: Seq<u8>,
    b: Seq<u8>,
    crypt: Seq<char>,
    crib: Seq<char>,
    used: LetterSet,
    i: int,
)
    requires
        tables_wf(f, b),
        crypt.len() == crib.len(),
        forall|j: int| 0 <= j < crypt.len() ==> is_lower(#[trigger] crypt[j]),
        forall|j: int| 0 <= j < crib.len() ==> is_lower(#[trigger] crib[j]),
        pairs_consistent(crypt, crib),
        0 <= i,
        crib_apply(f, b, crypt, crib, used, i) is Ok,
    ensures
        forall|j: int|
            i <= j < crypt.len() ==> crib_apply(f, b, crypt, crib, used, i)->Ok_0.0[spec_letter_pos(
                #[trigger] crypt[j],
            )] == spec_letter_pos(crib[j]) as u8,
    decreases crypt.len() - i,
{
    if i >= crypt.len() {
    } else {
        let pi = spec_letter_pos(crypt[i]);
        let vi = spec_letter_pos(crib[i]);
        let f1 = reassign_fwd(f, b, pi, vi);
        let b1 = reassign_bwd(f, b, pi, vi);
        lemma_reassign_wf(f, b, pi, vi);
        lemma_crib_apply_assigns(f1, b1, crypt, crib, used, i + 1);
        assert forall|j: int|
            i + 1 <= j < crypt.len() implies (spec_letter_pos(#[trigger] crypt[j]) == pi
            <==> spec_letter_pos(crib[j]) == vi) by {
            if spec_letter_pos(crypt[j]) == pi {
                lemma_pos_injective(crypt[j], crypt[i]);
            }
            if spec_letter_pos(crib[j]) == vi {
                lemma_pos_injective(crib[j], crib[i]);
            }
        }
        lemma_crib_apply_preserves(f1, b1, crypt, crib, used, i + 1, pi, vi);
    }
}

/// Exchanging two images preserves the key invariant.
proof fn lemma_swap_wf(f: Seq<u8>, b: Seq<u8>, p0: int, p1: int)
    requires
        tables_wf(f, b),
        0 <= p0 < 26,
        0 <= p1 < 26,
    ensures
        tables_wf(swap_fwd(f, p0, p1), swap_bwd(f, b, p0, p1)),
{
    let f2 = swap_fwd(f, p0, p1);
    let b2 = swap_bwd(f, b, p0, p1);
    assert forall|i: int| 0 <= i < 26 implies b2[#[trigger] f2[i] as int] == i by {
        if i != p0 && i != p1 {
            assert(b[f[i] as int] == i);
        }
    }
    assert forall|i: int| 0 <= i < 26 implies f2[#[trigger] b2[i] as int] == i by {
        if i != f[p0] as int && i != f[p1] as int {
            assert(f[b[i] as int] == i);
        }
    }
}

/// Forcing one image with its compensating swap preserves the key invariant.
proof fn lemma_reassign_wf(f: Seq<u8>, b: Seq<u8>, p: int, v: int)
    requires
        tables_wf(f, b),
        0 <= p < 26,
        0 <= v < 26,
    ensures
        tables_wf(reassign_fwd(f, b, p, v), reassign_bwd(f, b, p, v)),
        reassign_fwd(f, b, p, v)[p] == v as u8,
{
    let ov = f[p] as int;
    let k1 = b[v] as int;
    let f2 = reassign_fwd(f, b, p, v);
    let b2 = reassign_bwd(f, b, p, v);
    assert(f[k1 as int] == v);
    assert(b[ov as int] == p);
    if k1 == p {
        assert(ov == v);
        assert forall|i: int| 0 <= i < 26 implies b2[#[trigger] f2[i] as int] == i by {
            assert(f2[i] == f[i]);
            assert(b[f[i] as int] == i);
        }
        assert forall|i: int| 0 <= i < 26 implies f2[#[trigger] b2[i] as int] == i by {
            assert(b2[i] == b[i]);
            assert(f[b[i] as int] == i);
        }
    } else {
        assert(ov != v);
        assert forall|i: int| 0 <= i < 26 implies b2[#[trigger] f2[i] as int] == i by {
            if i != p && i != k1 {
                assert(f[i] != f[k1]) by {
                    assert(b[f[i] as int] == i);
                    assert(b[f[k1] as int] == k1);
                }
                assert(f[i] != f[p]) by {
                    assert(b[f[i] as int] == i);
                }
                assert(b[f[i] as int] == i);
            }
        }
        assert forall|i: int| 0 <= i < 26 implies f2[#[trigger] b2[i] as int] == i by {
            if i != v && i != ov {
                assert(b[i] != b[ov]) by {
                    assert(f[b[i] as int] == i);
                    assert(f[b[ov] as int] == ov);
                }
                assert(b[i] != b[v]) by {
                    assert(f[b[i] as int] == i);
                }
                assert(f[b[i] as int] == i);
            }
        }
    }
}

} // verus!
