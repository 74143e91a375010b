//! Token normalisation.
//!
//! A normaliser maps a token to a normalised token, or drops it. The
//! predefined normalisers are:
//!  * [`StopWords`] - filters the tokens by a list of stop words
//!  * [`LowerCase`] - converts the tokens to lower case
//!  * [`Unicode`] - performs Unicode normalisation of the tokens
//!
//! Further normalisers can be defined by implementing [`TokenNormaliser`];
//! the [`Normaliser`] sum carries any of the predefined ones, so that an
//! indexer can hold a mixed chain of them.
//!
//! Every normaliser may transform the value of a token but preserves its
//! offset; the trait contract enforces it.

use unicode_normalization::UnicodeNormalization;

use vstd::prelude::*;

use crate::tokenise::Token;

verus! {

/// Token normaliser.
///
/// Normalisation is applied during file tokenisation and index querying.
pub trait TokenNormaliser: Sized {
    /// What this normaliser turns a token value into, or `None` when it
    /// drops the token.
    spec fn norm_spec(self, value: Seq<char>) -> Option<Seq<char>>;

    /// Normalise the given token.
    fn normalise(&self, token: Token) -> (r: Option<Token>)
        ensures
            (match r {
                Some(t) => self.norm_spec(token.value@) == Some(t.value@) && t.offset
                    == token.offset,
                None => self.norm_spec(token.value@) is None,
            }),
    ;
}

/// What Unicode canonical composition makes of a character sequence.
pub uninterp spec fn nfc_of(s: Seq<char>) -> Seq<char>;

/// What Unicode canonical decomposition makes of a character sequence.
pub uninterp spec fn nfd_of(s: Seq<char>) -> Seq<char>;

/// What Unicode compatibility composition makes of a character sequence.
pub uninterp spec fn nfkc_of(s: Seq<char>) -> Seq<char>;

/// What Unicode compatibility decomposition makes of a character
/// sequence.
pub uninterp spec fn nfkd_of(s: Seq<char>) -> Seq<char>;

/// Relies on unicode_normalization's nfc: canonical decomposition
/// followed by canonical composition; the result depends on the
/// characters alone.
#[verifier::external_body]
fn to_nfc(s: &str) -> (r: String)
    ensures
        r@ == nfc_of(s@),
{
    s.nfc().collect()
}

/// Relies on unicode_normalization's nfd: canonical decomposition; the
/// result depends on the characters alone.
#[verifier::external_body]
fn to_nfd(s: &str) -> (r: String)
    ensures
        r@ == nfd_of(s@),
{
    s.nfd().collect()
}

/// Relies on unicode_normalization's nfkc: compatibility decomposition
/// followed by canonical composition; the result depends on the
/// characters alone.
#[verifier::external_body]
fn to_nfkc(s: &str) -> (r: String)
    ensures
        r@ == nfkc_of(s@),
{
    s.nfkc().collect()
}

/// Relies on unicode_normalization's nfkd: compatibility decomposition;
/// the result depends on the characters alone.
#[verifier::external_body]
fn to_nfkd(s: &str) -> (r: String)
    ensures
        r@ == nfkd_of(s@),
{
    s.nfkd().collect()
}

/// Unicode normaliser.
///
/// Performs NFC, NFD, NFKC or NFKD normalisation as defined by the
/// Unicode standard.
pub enum Unicode {
    NFC,
    NFD,
    NFKC,
    NFKD,
}

impl TokenNormaliser for Unicode {
    open spec fn norm_spec(self, value: Seq<char>) -> Option<Seq<char>> {
        match self {
            Unicode::NFC => Some(nfc_of(value)),
            Unicode::NFD => Some(nfd_of(value)),
            Unicode::NFKC => Some(nfkc_of(value)),
            Unicode::NFKD => Some(nfkd_of(value)),
        }
    }

    fn normalise(&self, token: Token) -> (r: Option<Token>) {
        let value = match self {
            Unicode::NFC => to_nfc(token.value.as_str()),
            Unicode::NFD => to_nfd(token.value.as_str()),
            Unicode::NFKC => to_nfkc(token.value.as_str()),
            Unicode::NFKD => to_nfkd(token.value.as_str()),
        };
        Some(Token { value, offset: token.offset })
    }
}

/// What Unicode-aware lowercasing makes of a character sequence.
pub uninterp spec fn lower_of(s: Seq<char>) -> Seq<char>;

/// Relies on str::to_lowercase: the Unicode-aware lower-case mapping of
/// the string; the result depends on the characters alone.
#[verifier::external_body]
fn to_lower(s: &str) -> (r: String)
    ensures
        r@ == lower_of(s@),
{
    s.to_lowercase()
}

/// Lower case normaliser.
///
/// Converts the token to lower case.
pub struct LowerCase;

impl TokenNormaliser for LowerCase {
    open spec fn norm_spec(self, value: Seq<char>) -> Option<Seq<char>> {
        Some(lower_of(value))
    }

    fn normalise(&self, token: Token) -> (r: Option<Token>) {
        Some(Token { value: to_lower(token.value.as_str()), offset: token.offset })
    }
}

/// Stop word normaliser.
///
/// Filters out the tokens whose value stands in the configured list of
/// stop words.
pub struct StopWords {
    stop_words: Vec<String>,
}

impl StopWords {
    /// The configured stop words.
    pub closed spec fn words(self) -> Seq<Seq<char>> {
        self.stop_words@.map_values(|s: String| s@)
    }

    /// Create a stop word normaliser from the given list of words.
    pub fn new(stop_words: &[&str]) -> (r: Self)
        ensures
            r.words().len() == stop_words@.len(),
            forall|i: int| 0 <= i < stop_words@.len() ==> #[trigger] r.words()[i] == stop_words@[i]@,
    {
        let mut owned: Vec<String> = Vec::new();
        let n = stop_words.len();
        let mut i: usize = 0;
        while i < n
            invariant
                0 <= i <= n,
                n == stop_words@.len(),
                owned@.len() == i,
                forall|j: int| 0 <= j < i ==> #[trigger] owned@[j]@ == stop_words@[j]@,
            decreases n - i,
        {
            let w = stop_words[i];
            owned.push(w.to_owned());
            i = i + 1;
        }
        let r = Self { stop_words: owned };
        proof {
            assert(forall|j: int|
                0 <= j < n ==> #[trigger] r.words()[j] == r.stop_words@[j]@);
        }
        r
    }

    /// Whether the given value is one of the stop words.
    fn has(&self, value: &str) -> (r: bool)
        ensures
            r == self.words().contains(value@),
    {
        let v = value.to_owned();
        let n = self.stop_words.len();
        let mut i: usize = 0;
        while i < n
            invariant
                0 <= i <= n,
                v@ == value@,
                n == self.stop_words@.len(),
                forall|j: int| 0 <= j < i ==> #[trigger] self.words()[j] != value@,
            decreases n - i,
        {
            let candidate: &String = &self.stop_words[i];
            if candidate.eq(&v) {
                proof {
                    assert(self.words()[i as int] == value@);
                }
                return true;
            }
            proof {
                assert(self.words()[i as int] == self.stop_words@[i as int]@);
            }
            i = i + 1;
        }
        proof {
            if self.words().contains(value@) {
                let j = choose|j: int| 0 <= j < self.words().len() && self.words()[j] == value@;
                assert(false);
            }
        }
        false
    }
}

impl TokenNormaliser for StopWords {
    open spec fn norm_spec(self, value: Seq<char>) -> Option<Seq<char>> {
        if self.words().contains(value) {
            None
        } else {
            Some(value)
        }
    }

    fn normalise(&self, token: Token) -> (r: Option<Token>) {
        if self.has(token.value.as_str()) {
            None
        } else {
            Some(token)
        }
    }
}

/// Any of the predefined normalisers, so that one indexer can carry a
/// mixed chain of them.
pub enum Normaliser {
    Unicode(Unicode),
    LowerCase(LowerCase),
    StopWords(StopWords),
}

impl TokenNormaliser for Normaliser {
    open spec fn norm_spec(self, value: Seq<char>) -> Option<Seq<char>> {
        match self {
            Normaliser::Unicode(n) => n.norm_spec(value),
            Normaliser::LowerCase(n) => n.norm_spec(value),
            Normaliser::StopWords(n) => n.norm_spec(value),
        }
    }

    fn normalise(&self, token: Token) -> (r: Option<Token>) {
        match self {
            Normaliser::Unicode(n) => n.normalise(token),
            Normaliser::LowerCase(n) => n.normalise(token),
            Normaliser::StopWords(n) => n.normalise(token),
        }
    }
}

} // verus!
