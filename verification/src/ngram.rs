//! The n-gram scorer: a table of fixed-point log-probabilities for quadgrams
//! (4-letter sequences), built from a corpus-derived frequency table, and a
//! scoring function over arbitrary letter sequences.
//!
//! Scores are integers in millionths of a decimal order of magnitude, so that
//! summing window scores is exact and overflow-free; higher (less negative)
//! scores indicate more English-like text.

use vstd::arithmetic::div_mod::lemma_div_is_ordered;
use vstd::arithmetic::div_mod::lemma_div_multiples_vanish;
use vstd::arithmetic::div_mod::lemma_multiply_divide_lt;
use vstd::arithmetic::logarithm::lemma_log0;
use vstd::arithmetic::logarithm::lemma_log_s;
use vstd::arithmetic::logarithm::log;
use vstd::arithmetic::power2::lemma2_to64;
use vstd::arithmetic::power2::lemma2_to64_rest;
use vstd::arithmetic::power2::lemma_pow2_adds;
use vstd::arithmetic::power2::lemma_pow2_pos;
use vstd::arithmetic::power2::pow2;
use vstd::prelude::*;
use vstd::string::StrSliceExecFns;

use crate::CipherError;
use crate::alpha::get_letter_pos;
use crate::alpha::is_lower;
use crate::alpha::spec_letter_pos;
use crate::alpha::split_whitespace_words;
use crate::alpha::spec_split_ws;
use crate::alpha::word_views;

verus! {

/// Fixed-point base-10 logarithm of `x`, in millionths: the integer part of
/// the base-2 logarithm plus a linear interpolation of the mantissa, rescaled
/// by one million times log10(2).
pub open spec fn spec_log10_scaled(x: int) -> int
    recommends
        x >= 1,
{
    let k = log(2, x);
    let m = (x * 0x8000_0000) / pow2(k as nat) as int;
    ((k * 0x8000_0000 + m - 0x8000_0000) * 301030) / 0x8000_0000
}

/// Computes [`spec_log10_scaled`] exactly, without floating point.
pub fn log10_scaled(x: u64) -> (r: i64)
    requires
        x >= 1,
    ensures
        r == spec_log10_scaled(x as int),
        0 <= r <= 19_300_000,
{
    let mut t: u64 = x;
    let mut k: u32 = 0;
    let mut pw: u64 = 1;
    proof {
        lemma2_to64();
        assert(t * pw <= x < (t + 1) * pw) by (nonlinear_arith)
            requires
                t == x && pw == 1,
        ;
    }
    while t >= 2
        invariant
            x >= 1,
            1 <= t,
            k <= 63,
            pw == pow2(k as nat),
            t * pw <= x < (t + 1) * pw,
            log(2, x as int) == k + log(2, t as int),
        decreases t,
    {
        proof {
            lemma_pow2_pos(k as nat);
            lemma_log_s(2, t as int);
            lemma_pow2_adds(k as nat, 1);
            lemma2_to64();
            assert(pow2((k + 1) as nat) == 2 * pw);
            assert(2 * pw <= t * pw) by (nonlinear_arith)
                requires
                    t >= 2 && pw >= 1,
            ;
            assert((t / 2) * (2 * pw) <= t * pw) by (nonlinear_arith)
                requires
                    pw >= 1 && t >= 2,
            ;
            assert((t + 1) * pw <= ((t / 2) + 1) * (2 * pw)) by (nonlinear_arith)
                requires
                    pw >= 1 && t >= 2,
            ;
            if k + 1 >= 64 {
                lemma2_to64_rest();
                assert(pow2(64) == 0x10000000000000000);
                assert(false);
            }
        }
        t = t / 2;
        k = k + 1;
        pw = pw * 2;
    }
    proof {
        lemma_log0(2, 1);
        assert(t == 1);
        assert(pw <= x < 2 * pw) by (nonlinear_arith)
            requires
                t == 1 && t * pw <= x < (t + 1) * pw,
        ;
        assert(k == log(2, x as int));
    }
    let m128: u128 = ((x as u128) * 0x8000_0000u128) / (pw as u128);
    proof {
        assert((pw as int) * 0x8000_0000 <= (x as int) * 0x8000_0000) by (nonlinear_arith)
            requires
                pw <= x,
        ;
        lemma_div_is_ordered((pw as int) * 0x8000_0000, (x as int) * 0x8000_0000, pw as int);
        lemma_div_multiples_vanish(0x8000_0000, pw as int);
        assert((pw as int) * 0x8000_0000 / (pw as int) == 0x8000_0000);
        assert(m128 >= 0x8000_0000);
        assert((x as int) * 0x8000_0000 < (pw as int) * 0x100000000) by (nonlinear_arith)
            requires
                x < 2 * pw,
        ;
        lemma_multiply_divide_lt((x as int) * 0x8000_0000, pw as int, 0x100000000);
        assert(m128 < 0x100000000);
    }
    let m64: u64 = m128 as u64;
    let lg: u64 = (k as u64) * 0x8000_0000 + m64 - 0x8000_0000;
    let r128: u128 = ((lg as u128) * 301030) / 0x8000_0000;
    proof {
        assert(lg < 64 * 0x8000_0000);
        assert((lg as int) * 301030 < (0x8000_0000 as int) * (64 * 301030)) by (nonlinear_arith)
            requires
                lg < 64 * 0x8000_0000,
        ;
        lemma_multiply_divide_lt((lg as int) * 301030, 0x8000_0000, (64 * 301030) as int);
        assert(r128 < 19_265_920);
    }
    r128 as i64
}

/// The quadgram score table and the floor for unseen quadgrams.
#[derive(Debug)]
pub struct NGram {
    pub table: Vec<i64>,
    pub floor: i64,
}

/// The flat table index of the quadgram with letter positions `a b c d`.
pub open spec fn quad_index(a: int, b: int, c: int, d: int) -> int {
    ((a * 26 + b) * 26 + c) * 26 + d
}

/// One line of the frequency source, parsed: the quadgram's table index and
/// its count. `None` when the line is malformed: fewer than two fields, a
/// first field that is not exactly four lowercase letters, or a second field
/// that is not a count between 1 and `u64::MAX`.
pub open spec fn spec_entry(line: Seq<char>) -> Option<(int, int)> {
    let toks = spec_split_ws(line);
    if toks.len() < 2 {
        None
    } else {
        let w = toks[0];
        let f = toks[1];
        if !(w.len() == 4 && is_lower(w[0]) && is_lower(w[1]) && is_lower(w[2]) && is_lower(w[3])) {
            None
        } else if !all_digits(f) {
            None
        } else {
            let v = spec_parse_nat(f);
            if v < 1 || v > u64::MAX {
                None
            } else {
                Some(
                    (
                        quad_index(
                            spec_letter_pos(w[0]),
                            spec_letter_pos(w[1]),
                            spec_letter_pos(w[2]),
                            spec_letter_pos(w[3]),
                        ),
                        v,
                    ),
                )
            }
        }
    }
}

/// The sum of the counts of the first `i` lines (malformed lines count 0).
pub open spec fn spec_total(lines: Seq<Seq<char>>, i: int) -> int
    decreases i,
{
    if i <= 0 {
        0
    } else {
        spec_total(lines, i - 1) + (match spec_entry(lines[i - 1]) {
            Some(e) => e.1,
            None => 0,
        })
    }
}

/// The score table after folding the first `i` lines over a floor-filled
/// table: each parsed line sets its quadgram's slot to the difference of the
/// scaled logarithms of its count and of `total`, later lines winning.
pub open spec fn spec_table(lines: Seq<Seq<char>>, i: int, total: int, floor: i64) -> Seq<i64>
    decreases i,
{
    if i <= 0 {
        Seq::new(456976, |j: int| floor)
    } else {
        let prev = spec_table(lines, i - 1, total, floor);
        match spec_entry(lines[i - 1]) {
            Some(e) => prev.update(
                e.0,
                (spec_log10_scaled(e.1) - spec_log10_scaled(total)) as i64,
            ),
            None => prev,
        }
    }
}

/// The running total never shrinks as more lines are summed.
proof fn lemma_total_mono(lines: Seq<Seq<char>>, i: int, j: int)
    requires
        0 <= i <= j,
    ensures
        spec_total(lines, i) <= spec_total(lines, j),
    decreases j,
{
    if i < j {
        lemma_total_mono(lines, i, j - 1);
    }
}

/// `c` is a decimal digit.
pub open spec fn is_digit(c: char) -> bool {
    '0' <= c && c <= '9'
}

/// `s` is a nonempty string of decimal digits.
pub open spec fn all_digits(s: Seq<char>) -> bool {
    s.len() > 0 && forall|i: int| 0 <= i < s.len() ==> is_digit(#[trigger] s[i])
}

/// The number that the digit string `s` denotes.
pub open spec fn spec_parse_nat(s: Seq<char>) -> int
    decreases s.len(),
{
    if s.len() == 0 {
        0
    } else {
        spec_parse_nat(s.drop_last()) * 10 + (s.last() as int - 48)
    }
}

/// The denoted number never shrinks as digits are appended.
proof fn lemma_parse_prefix_le(s: Seq<char>, i: int)
    requires
        forall|j: int| 0 <= j < s.len() ==> is_digit(#[trigger] s[j]),
        0 <= i <= s.len(),
    ensures
        0 <= spec_parse_nat(s.subrange(0, i)) <= spec_parse_nat(s),
    decreases s.len(),
{
    if s.len() == 0 {
        assert(s.subrange(0, i) =~= s);
    } else if i == s.len() {
        assert(s.subrange(0, i) =~= s);
        lemma_parse_prefix_le(s.drop_last(), i - 1);
        assert(s.drop_last().subrange(0, i - 1) =~= s.drop_last());
    } else {
        assert(s.subrange(0, i) =~= s.drop_last().subrange(0, i));
        lemma_parse_prefix_le(s.drop_last(), i);
        assert(is_digit(s.last()));
    }
}

/// Parses a nonempty decimal digit string into a `u64`. `None` when `s` is
/// not all digits or the value does not fit.
pub fn parse_u64(s: &str) -> (r: Option<u64>)
    ensures
        r matches Some(v) ==> all_digits(s@) && v == spec_parse_nat(s@),
        r is None ==> !all_digits(s@) || spec_parse_nat(s@) > u64::MAX,
{
    let n = s.unicode_len();
    if n == 0 {
        return None;
    }
    let mut val: u64 = 0;
    let mut i: usize = 0;
    while i < n
        invariant
            n == s@.len(),
            i <= n,
            forall|j: int| 0 <= j < i ==> is_digit(#[trigger] s@[j]),
            val == spec_parse_nat(s@.subrange(0, i as int)),
        decreases n - i,
    {
        let c = s.get_char(i);
        let u = c as u32;
        if !(48 <= u && u <= 57) {
            return None;
        }
        let d = (u - 48) as u64;
        let v10 = match val.checked_mul(10) {
            Some(v) => v,
            None => {
                proof {
                    lemma_parse_overflow(s@, i as int);
                }
                return None;
            },
        };
        let v = match v10.checked_add(d) {
            Some(v) => v,
            None => {
                proof {
                    lemma_parse_overflow(s@, i as int);
                }
                return None;
            },
        };
        val = v;
        i += 1;
        proof {
            assert(s@.subrange(0, i as int).drop_last() =~= s@.subrange(0, i - 1));
            assert(s@.subrange(0, i as int).last() == c);
        }
    }
    proof {
        assert(s@.subrange(0, n as int) =~= s@);
    }
    Some(val)
}

/// If the value of a proper prefix extended by one digit exceeds `u64::MAX`,
/// so does the value of the whole digit string.
proof fn lemma_parse_overflow(s: Seq<char>, i: int)
    requires
        0 <= i < s.len(),
        forall|j: int| 0 <= j <= i ==> is_digit(#[trigger] s[j]),
        spec_parse_nat(s.subrange(0, i)) * 10 + (s[i] as int - 48) > u64::MAX,
    ensures
        !(forall|j: int| 0 <= j < s.len() ==> is_digit(#[trigger] s[j])) || spec_parse_nat(s)
            > u64::MAX,
{
    if forall|j: int| 0 <= j < s.len() ==> is_digit(#[trigger] s[j]) {
        assert(s.subrange(0, i + 1).drop_last() =~= s.subrange(0, i));
        assert(spec_parse_nat(s.subrange(0, i + 1)) > u64::MAX);
        lemma_parse_prefix_le(s, i + 1);
    }
}

impl NGram {
    /// The table covers every quadgram, all scores are bounded, and the floor
    /// is negative and below or at every table entry.
    pub open spec fn wf(self) -> bool {
        &&& self.table@.len() == 456976
        &&& forall|i: int|
            0 <= i < 456976 ==> -40_000_000 <= #[trigger] self.table@[i] <= 40_000_000
        &&& -40_000_000 <= self.floor < 0
        &&& forall|i: int| 0 <= i < 456976 ==> #[trigger] self.table@[i] >= self.floor
    }

    /// The score of the length-4 window of `s` starting at `i`: the table
    /// entry of its quadgram if all four characters are lowercase letters,
    /// the floor otherwise.
    pub open spec fn window_score(self, s: Seq<char>, i: int) -> int {
        if is_lower(s[i]) && is_lower(s[i + 1]) && is_lower(s[i + 2]) && is_lower(s[i + 3]) {
            self.table@[quad_index(
                spec_letter_pos(s[i]),
                spec_letter_pos(s[i + 1]),
                spec_letter_pos(s[i + 2]),
                spec_letter_pos(s[i + 3]),
            )] as int
        } else {
            self.floor as int
        }
    }

    /// The sum of the scores of the first `n` windows of `s`.
    pub open spec fn score_upto(self, s: Seq<char>, n: int) -> int
        decreases n,
    {
        if n <= 0 {
            0
        } else {
            self.score_upto(s, n - 1) + self.window_score(s, n - 1)
        }
    }

    /// The score of `s`: the sum over all overlapping length-4 windows; an
    /// input shorter than 4 has no windows and scores 0.
    pub open spec fn spec_score(self, s: Seq<char>) -> int {
        if s.len() < 4 {
            0
        } else {
            self.score_upto(s, s.len() - 3)
        }
    }

    /// Calculates the summed log-probability score of the given characters.
    pub fn score_chars(&self, chars: &[char]) -> (r: i64)
        requires
            self.wf(),
            chars@.len() <= 1_000_000_000,
        ensures
            r == self.spec_score(chars@),
    {
        let n = chars.len();
        if n < 4 {
            return 0;
        }
        let mut sum: i64 = 0;
        let mut i: usize = 0;
        while i < n - 3
            invariant
                self.wf(),
                n == chars@.len(),
                4 <= n <= 1_000_000_000,
                i <= n - 3,
                sum == self.score_upto(chars@, i as int),
                -40_000_000 * (i as int) <= sum <= 40_000_000 * (i as int),
            decreases n - i,
        {
            let w = self.window_at(chars, i);
            sum = sum + w;
            i += 1;
        }
        sum
    }

    /// Builds the scorer from the lines of a quadgram frequency source.
    ///
    /// Each line holds a quadgram and its count, whitespace-separated; extra
    /// fields are ignored. The load fails with `CorpusLoadError` exactly when
    /// the source is empty, any line is malformed (see [`spec_entry`]), or
    /// the counts overflow a `u64` sum. On success every quadgram of the
    /// source scores the difference of the scaled logarithms of its count and
    /// of the total count, every other quadgram scores the floor, and the
    /// floor lies strictly below every observed score.
    pub fn from_lines(lines: &Vec<String>) -> (r: Result<Self, CipherError>)
        ensures
            ({
                let lv = word_views(lines@);
                let n = lv.len() as int;
                let total = spec_total(lv, n);
                let ok = n > 0 && (forall|i: int| 0 <= i < n ==> spec_entry(#[trigger] lv[i]) is Some)
                    && total <= u64::MAX;
                match r {
                    Ok(g) => ok && g.wf() && g.floor == -2_000_000 - spec_log10_scaled(total)
                        && g.table@ == spec_table(lv, n, total, g.floor),
                    Err(e) => !ok && e == CipherError::CorpusLoadError,
                }
            }),
    {
        let ghost lv = word_views(lines@);
        let n = lines.len();
        if n == 0 {
            return Err(CipherError::CorpusLoadError);
        }
        let mut entries: Vec<(u32, u64)> = Vec::new();
        let mut total: u64 = 0;
        let mut i: usize = 0;
        while i < n
            invariant
                lv == word_views(lines@),
                n == lines@.len(),
                1 <= n,
                i <= n,
                forall|j: int| 0 <= j < i ==> spec_entry(#[trigger] lv[j]) is Some,
                total == spec_total(lv, i as int),
                i >= 1 ==> total >= 1,
                entries@.len() == i,
                forall|j: int|
                    0 <= j < i ==> #[trigger] entries@[j] == (
                        spec_entry(lv[j])->Some_0.0 as u32,
                        spec_entry(lv[j])->Some_0.1 as u64,
                    ),
                forall|j: int|
                    0 <= j < i ==> 0 <= #[trigger] entries@[j].0 < 456976 && entries@[j].1 >= 1,
            decreases n - i,
        {
            let toks = split_whitespace_words(lines[i].as_str());
            if toks.len() < 2 {
                return Err(CipherError::CorpusLoadError);
            }
            let w = &toks[0];
            if w.as_str().unicode_len() != 4 {
                return Err(CipherError::CorpusLoadError);
            }
            let mut idx: u32 = 0;
            let mut jj: usize = 0;
            let ghost wv = w@;
            while jj < 4
                invariant
                    lv == word_views(lines@),
                    n == lines@.len(),
                    i < n,
                    lv[i as int] == lines@[i as int]@,
                    word_views(toks@) == spec_split_ws(lv[i as int]),
                    toks@.len() >= 2,
                    wv == word_views(toks@)[0],
                    wv == w@,
                    w@.len() == 4,
                    jj <= 4,
                    forall|t: int| 0 <= t < jj ==> is_lower(#[trigger] w@[t]),
                    idx < 456976,
                    jj == 0 ==> idx == 0,
                    jj == 1 ==> idx == spec_letter_pos(wv[0]),
                    jj == 2 ==> idx == spec_letter_pos(wv[0]) * 26 + spec_letter_pos(wv[1]),
                    jj == 3 ==> idx == (spec_letter_pos(wv[0]) * 26 + spec_letter_pos(wv[1])) * 26
                        + spec_letter_pos(wv[2]),
                    jj == 4 ==> idx == quad_index(
                        spec_letter_pos(wv[0]),
                        spec_letter_pos(wv[1]),
                        spec_letter_pos(wv[2]),
                        spec_letter_pos(wv[3]),
                    ),
                decreases 4 - jj,
            {
                let c = w.as_str().get_char(jj);
                let p = match get_letter_pos(c) {
                    Some(p) => p,
                    None => {
                        proof {
                            assert(!is_lower(spec_split_ws(lv[i as int])[0][jj as int]));
                            assert(spec_entry(lv[i as int]) is None);
                        }
                        return Err(CipherError::CorpusLoadError);
                    },
                };
                proof {
                    assert(idx <= 17575) by {
                        if jj == 3 {
                            assert(spec_letter_pos(wv[0]) <= 25);
                            assert(spec_letter_pos(wv[1]) <= 25);
                            assert(spec_letter_pos(wv[2]) <= 25);
                        }
                    }
                }
                idx = idx * 26 + p as u32;
                jj += 1;
            }
            let v = match parse_u64(toks[1].as_str()) {
                Some(v) => v,
                None => {
                    return Err(CipherError::CorpusLoadError);
                },
            };
            if v == 0 {
                return Err(CipherError::CorpusLoadError);
            }
            proof {
                assert(lv[i as int] == lines@[i as int]@);
                assert(word_views(toks@) == spec_split_ws(lines@[i as int]@));
                assert(toks@[0]@ == word_views(toks@)[0]);
                assert(toks@[1]@ == word_views(toks@)[1]);
                assert(spec_entry(lv[i as int]) is Some);
            }
            total = match total.checked_add(v) {
                Some(t) => t,
                None => {
                    proof {
                        lemma_total_mono(lv, i + 1, lv.len() as int);
                    }
                    return Err(CipherError::CorpusLoadError);
                },
            };
            entries.push((idx, v));
            i += 1;
        }
        let lt = log10_scaled(total);
        let floor: i64 = -2_000_000 - lt;
        let mut table: Vec<i64> = vec![floor; 456976];
        proof {
            assert(table@ =~= spec_table(lv, 0, total as int, floor));
        }
        let mut j: usize = 0;
        while j < entries.len()
            invariant
                lv == word_views(lines@),
                n == lines@.len(),
                forall|t: int| 0 <= t < n ==> spec_entry(#[trigger] lv[t]) is Some,
                total == spec_total(lv, n as int),
                total >= 1,
                lt == spec_log10_scaled(total as int),
                0 <= lt <= 19_300_000,
                floor == -2_000_000 - lt,
                entries@.len() == n,
                forall|t: int|
                    0 <= t < n ==> #[trigger] entries@[t] == (
                        spec_entry(lv[t])->Some_0.0 as u32,
                        spec_entry(lv[t])->Some_0.1 as u64,
                    ),
                forall|t: int|
                    0 <= t < n ==> 0 <= #[trigger] entries@[t].0 < 456976 && entries@[t].1 >= 1,
                j <= n,
                table@.len() == 456976,
                table@ == spec_table(lv, j as int, total as int, floor),
                forall|t: int|
                    0 <= t < 456976 ==> floor <= #[trigger] table@[t] <= 40_000_000,
            decreases n - j,
        {
            let e = entries[j];
            let s = log10_scaled(e.1) - lt;
            table.set(e.0 as usize, s);
            j += 1;
        }
        Ok(NGram { table, floor })
    }

    /// The score of one window, read from the table.
    fn window_at(&self, chars: &[char], i: usize) -> (r: i64)
        requires
            self.wf(),
            i + 3 < chars@.len(),
        ensures
            r == self.window_score(chars@, i as int),
            -40_000_000 <= r <= 40_000_000,
    {
        let p0 = get_letter_pos(chars[i]);
        let p1 = get_letter_pos(chars[i + 1]);
        let p2 = get_letter_pos(chars[i + 2]);
        let p3 = get_letter_pos(chars[i + 3]);
        match (p0, p1, p2, p3) {
            (Some(a), Some(b), Some(c), Some(d)) => {
                let idx: usize = ((a as usize * 26 + b as usize) * 26 + c as usize) * 26
                    + d as usize;
                self.table[idx]
            },
            _ => self.floor,
        }
    }
}

} // verus!
