//! Recovery of plaintext from classical substitution ciphers (Caesar shift and
//! general monoalphabetic substitution) without a known key, using statistical
//! language models instead of brute force over all plausible keys.

use vstd::prelude::*;

pub mod alpha;
pub mod caesar;
pub mod dict;
pub mod ngram;
pub mod simp_sub;

verus! {

/// The error kinds of this library.
///
/// `KeyLengthMismatch` reports malformed key construction input.
/// `LetterAlreadyCommitted` and `InternalConflict` report crib application
/// failures, which callers recover from by trying the next candidate.
/// `CorpusLoadError` reports a malformed n-gram frequency source and is fatal
/// to any search that depends on scoring.
#[derive(Clone, Copy, Debug, PartialEq, Eq, Structural)]
pub enum CipherError {
    KeyLengthMismatch,
    LetterAlreadyCommitted,
    InternalConflict,
    CorpusLoadError,
}

} // verus!
