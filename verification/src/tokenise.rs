//! Tokenising facilities to split a given text into tokens.
//!
//! A tokeniser is any type that implements [`Tokeniser`]. The predefined
//! [`SpaceTokeniser`] splits the input by white space. To use a tokeniser
//! with an indexer one supplies a [`TokeniserFactory`] that creates a
//! fresh tokeniser in a ready-to-use state for every file.

use vstd::prelude::*;
use vstd::utf8::{encode_scalar, encode_utf8};

use crate::order::Duplicable;

verus! {

/// Whether a character splits tokens.
pub uninterp spec fn is_space(c: char) -> bool;

/// Relies on char::is_whitespace: whether the character has the Unicode
/// `White_Space` property. The result depends on the character alone.
#[verifier::external_body]
fn char_is_space(c: char) -> (r: bool)
    ensures
        r == is_space(c),
{
    c.is_whitespace()
}

/// The number of bytes in the UTF-8 encoding of one character.
pub open spec fn char_width(c: char) -> nat {
    encode_scalar(c as u32).len()
}

/// The number of bytes a character sequence takes when encoded as UTF-8.
pub open spec fn byte_len(s: Seq<char>) -> nat {
    encode_utf8(s).len()
}

/// Relies on str::len: the length of the string in bytes. A string is a
/// slice in memory, so its byte length fits the machine word.
#[verifier::external_body]
fn text_byte_len(text: &str) -> (n: usize)
    ensures
        n as nat == byte_len(text@),
{
    text.len()
}

/// Compute the width of one character's UTF-8 encoding.
fn utf8_width(c: char) -> (w: usize)
    ensures
        w == char_width(c),
{
    proof {
        vstd::utf8::char_is_scalar(c);
    }
    let u = c as u32;
    if u < 0x80 {
        1
    } else if u < 0x800 {
        2
    } else if u < 0x10000 {
        3
    } else {
        4
    }
}

/// Encoding a concatenation encodes the parts one after the other.
proof fn lemma_encode_concat(a: Seq<char>, b: Seq<char>)
    ensures
        encode_utf8(a + b) == encode_utf8(a) + encode_utf8(b),
    decreases a.len(),
{
    if a.len() == 0 {
        assert(a + b =~= b);
        assert(encode_utf8(a) + encode_utf8(b) =~= encode_utf8(b));
    } else {
        assert((a + b).len() > 0);
        assert((a + b)[0] == a[0]);
        assert((a + b).drop_first() =~= a.drop_first() + b);
        lemma_encode_concat(a.drop_first(), b);
        assert(encode_utf8(a + b) =~= encode_utf8(a) + encode_utf8(b));
    }
}

/// Stepping one character forward adds that character's width to the byte
/// offset, and stays within the text.
proof fn lemma_byte_len_step(s: Seq<char>, i: int)
    requires
        0 <= i < s.len(),
    ensures
        byte_len(s.take(i + 1)) == byte_len(s.take(i)) + char_width(s[i]),
        byte_len(s.take(i + 1)) <= byte_len(s),
{
    assert(s.take(i + 1) =~= s.take(i) + seq![s[i]]);
    lemma_encode_concat(s.take(i), seq![s[i]]);
    assert(seq![s[i]].len() == 1);
    assert(seq![s[i]][0] == s[i]);
    assert(seq![s[i]].drop_first() =~= Seq::<char>::empty());
    assert(seq![s[i]].drop_first() == Seq::<char>::empty());
    assert(encode_utf8(Seq::<char>::empty()) =~= Seq::<u8>::empty());
    assert(encode_utf8(seq![s[i]]) == encode_scalar(seq![s[i]][0] as u32) + encode_utf8(
        seq![s[i]].drop_first(),
    ));
    assert(encode_utf8(seq![s[i]]) =~= encode_scalar(s[i] as u32));
    assert(s =~= s.take(i + 1) + s.skip(i + 1));
    lemma_encode_concat(s.take(i + 1), s.skip(i + 1));
}

/// The length of the leading run of non-space characters.
pub open spec fn run_len(s: Seq<char>) -> nat
    decreases s.len(),
{
    if s.len() == 0 || is_space(s[0]) {
        0
    } else {
        1 + run_len(s.skip(1))
    }
}

/// The leading run is delimited by the first space (or the end of the
/// text): knowing where the first space is pins the run down.
proof fn lemma_run_len(s: Seq<char>, m: int)
    requires
        0 <= m <= s.len(),
        forall|k: int| 0 <= k < m ==> !is_space(#[trigger] s[k]),
        m == s.len() || is_space(s[m]),
    ensures
        run_len(s) == m,
    decreases m,
{
    if m == 0 {
    } else {
        assert(!is_space(s[0]));
        assert forall|k: int| 0 <= k < m - 1 implies !is_space(#[trigger] s.skip(1)[k]) by {
            assert(s.skip(1)[k] == s[k + 1]);
        }
        if m < s.len() {
            assert(s.skip(1)[m - 1] == s[m]);
        }
        lemma_run_len(s.skip(1), m - 1);
    }
}

/// The tokens of a text, each paired with the byte offset of its first
/// character; `pos` is the byte offset at which the text itself begins.
pub open spec fn space_split(s: Seq<char>, pos: nat) -> Seq<(Seq<char>, nat)>
    decreases s.len(),
    via space_split_dec
{
    if s.len() == 0 {
        Seq::empty()
    } else if is_space(s[0]) {
        space_split(s.skip(1), pos + char_width(s[0]))
    } else {
        let n = run_len(s) as int;
        seq![(s.take(n), pos)] + space_split(s.skip(n), pos + byte_len(s.take(n)))
    }
}

#[via_fn]
proof fn space_split_dec(s: Seq<char>, pos: nat) {
    if s.len() > 0 && !is_space(s[0]) {
        lemma_run_len_le(s);
        assert(run_len(s) >= 1);
    }
}

/// The leading run never runs past the end of the text.
proof fn lemma_run_len_le(s: Seq<char>)
    ensures
        run_len(s) <= s.len(),
    decreases s.len(),
{
    if s.len() > 0 && !is_space(s[0]) {
        lemma_run_len_le(s.skip(1));
    }
}

/// Token: a parsed value and its byte offset in the source text.
///
/// The length and the representation of the value may differ from what
/// stands in the file, because of the normalisers applied to it.
pub struct Token {
    /// Token's string value.
    pub value: String,
    /// Byte offset in the source text.
    pub offset: u64,
}

impl View for Token {
    type V = (Seq<char>, nat);

    open spec fn view(&self) -> (Seq<char>, nat) {
        (self.value@, self.offset as nat)
    }
}

impl Duplicable for Token {
    fn dup(&self) -> (r: Self)
        ensures
            r == *self,
    {
        Token { value: self.value.clone(), offset: self.offset }
    }
}

impl Token {
    /// Create a new token with the given string value and an offset of
    /// zero.
    pub fn new(value: String) -> (t: Self)
        ensures
            t.value == value,
            t.offset == 0,
    {
        Self { value, offset: 0 }
    }

    /// Create a new token with the given string value at the specified
    /// offset.
    pub fn with_offset_at(value: String, offset: u64) -> (t: Self)
        ensures
            t.value == value,
            t.offset == offset,
    {
        Self { value, offset }
    }
}

/// The views of a sequence of tokens.
pub open spec fn token_views(s: Seq<Token>) -> Seq<(Seq<char>, nat)> {
    s.map_values(|t: Token| t@)
}

/// Tokeniser knows how to split an incoming text into distinct tokens.
///
/// The same text is threaded across successive calls to
/// [`Tokeniser::read_token`]; an implementation may tokenise all of it on
/// the first call and hand out buffered tokens afterwards. The abstract
/// state of a tokeniser is `None` before the first call and the sequence
/// of tokens still to hand out afterwards.
pub trait Tokeniser: View<V = Option<Seq<(Seq<char>, nat)>>> + Sized {
    /// How this tokeniser splits a text: the token values together with
    /// their byte offsets in the text.
    spec fn splits(self, text: Seq<char>) -> Seq<(Seq<char>, nat)>;

    /// Read a subsequent token from the given text.
    ///
    /// The returned value `None` signifies the end of the token stream.
    fn read_token(&mut self, text: &str) -> (t: Option<Token>)
        ensures
            ({
                let rem = match old(self)@ {
                    None => old(self).splits(text@),
                    Some(r) => r,
                };
                &&& final(self)@ == Some(
                    if rem.len() == 0 {
                        rem
                    } else {
                        rem.skip(1)
                    },
                )
                &&& rem.len() == 0 ==> t is None
                &&& rem.len() > 0 ==> (t matches Some(tok) && tok@ == rem[0])
            }),
    ;
}

/// Produces [`Tokeniser`]s in a ready-to-use state.
pub trait TokeniserFactory: Sized {
    /// The kind of tokeniser produced.
    type Out: Tokeniser;

    /// Create a fresh tokeniser that has read nothing yet.
    fn create(&self) -> (r: Self::Out)
        ensures
            r@ is None,
    ;
}

/// Tokeniser that splits the input into tokens by white space.
pub struct SpaceTokeniser {
    words: Vec<Token>,
    given: usize,
    loaded: bool,
}

impl View for SpaceTokeniser {
    type V = Option<Seq<(Seq<char>, nat)>>;

    closed spec fn view(&self) -> Option<Seq<(Seq<char>, nat)>> {
        if self.loaded {
            Some(token_views(self.words@).skip(self.given as int))
        } else {
            None
        }
    }
}

impl SpaceTokeniser {
    #[verifier::type_invariant]
    spec fn inv(self) -> bool {
        self.given <= self.words@.len()
    }

    /// Create a tokeniser that has read nothing yet.
    pub fn new() -> (s: Self)
        ensures
            s@ is None,
    {
        Self { words: Vec::new(), given: 0, loaded: false }
    }

    /// Split a whole text by white space, producing every token at once.
    fn scan(text: &str) -> (out: Vec<Token>)
        ensures
            token_views(out@) == space_split(text@, 0),
    {
        let n = text.unicode_len();
        let total = text_byte_len(text);
        let mut out: Vec<Token> = Vec::new();
        let mut i: usize = 0;
        let mut pos: usize = 0;
        proof {
            assert(text@.take(0) =~= Seq::<char>::empty());
            assert(byte_len(text@.take(0)) == 0);
            assert(text@.skip(0) =~= text@);
            assert(token_views(out@) + space_split(text@, 0) =~= space_split(text@, 0));
        }
        loop
            invariant
                0 <= i <= n,
                n == text@.len(),
                total as nat == byte_len(text@),
                pos as nat == byte_len(text@.take(i as int)),
                pos <= total,
                space_split(text@, 0) == token_views(out@) + space_split(
                    text@.skip(i as int),
                    pos as nat,
                ),
            decreases n - i,
        {
            if i == n {
                proof {
                    assert(text@.skip(i as int).len() == 0);
                    assert(space_split(text@.skip(i as int), pos as nat) =~= Seq::<
                        (Seq<char>, nat),
                    >::empty());
                    assert(token_views(out@) + space_split(text@.skip(i as int), pos as nat)
                        =~= token_views(out@));
                }
                return out;
            }
            let c = text.get_char(i);
            proof {
                lemma_byte_len_step(text@, i as int);
            }
            if char_is_space(c) {
                proof {
                    let rest = text@.skip(i as int);
                    assert(rest[0] == c);
                    assert(rest.skip(1) =~= text@.skip(i as int + 1));
                    assert(space_split(rest, pos as nat) == space_split(
                        text@.skip(i as int + 1),
                        (pos + char_width(c)) as nat,
                    ));
                }
                let w = utf8_width(c);
                pos = pos + w;
                i = i + 1;
            } else {
                let start = i;
                let ghost startpos = pos as nat;
                let mut j = i;
                let mut rpos = pos;
                loop
                    invariant
                        0 <= start <= j <= n,
                        n == text@.len(),
                        total as nat == byte_len(text@),
                        rpos as nat == byte_len(text@.take(j as int)),
                        rpos <= total,
                        forall|k: int| start <= k < j ==> !is_space(#[trigger] text@[k]),
                    ensures
                        start <= j <= n,
                        rpos as nat == byte_len(text@.take(j as int)),
                        rpos <= total,
                        forall|k: int| start <= k < j ==> !is_space(#[trigger] text@[k]),
                        j == n || is_space(text@[j as int]),
                    decreases n - j,
                {
                    if j == n {
                        break ;
                    }
                    let cj = text.get_char(j);
                    if char_is_space(cj) {
                        break ;
                    }
                    proof {
                        lemma_byte_len_step(text@, j as int);
                    }
                    let w = utf8_width(cj);
                    rpos = rpos + w;
                    j = j + 1;
                }
            // here: chars in [start, j) are non-space, and either the text
            // ends at j or a space stands there
                proof {
                    let rest = text@.skip(start as int);
                    assert forall|k: int| 0 <= k < j - start implies !is_space(
                        #[trigger] rest[k],
                    ) by {
                        assert(rest[k] == text@[start + k]);
                    }
                    if j < n {
                        assert(rest[j - start] == text@[j as int]);
                        assert(is_space(rest[j - start]));
                    }
                    lemma_run_len(rest, j - start);
                    assert(run_len(rest) == j - start);
                }
                let value = text.substring_char(start, j).to_owned();
                let t = Token { value, offset: pos as u64 };
                proof {
                    let rest = text@.skip(start as int);
                    let rl = (j - start) as int;
                    assert(rest.take(rl) =~= text@.subrange(start as int, j as int));
                    assert(t@ == (rest.take(rl), startpos));
                    assert(rest.skip(rl) =~= text@.skip(j as int));
                    // the bytes of the run carry the offset from start to j
                    assert(text@.take(j as int) =~= text@.take(start as int) + text@.subrange(
                        start as int,
                        j as int,
                    ));
                    lemma_encode_concat(text@.take(start as int), text@.subrange(
                        start as int,
                        j as int,
                    ));
                    assert(startpos + byte_len(rest.take(rl)) == rpos as nat);
                    assert(space_split(rest, startpos) == seq![(rest.take(rl), startpos)]
                        + space_split(text@.skip(j as int), rpos as nat));
                }
                let ghost old_out = out@;
                out.push(t);
                proof {
                    assert(token_views(out@) =~= token_views(old_out).push(t@));
                    assert(token_views(out@) + space_split(text@.skip(j as int), rpos as nat)
                        =~= token_views(old_out) + space_split(
                        text@.skip(start as int),
                        startpos,
                    ));
                }
                i = j;
                pos = rpos;
            }
        }
    }
}

impl Tokeniser for SpaceTokeniser {
    open spec fn splits(self, text: Seq<char>) -> Seq<(Seq<char>, nat)> {
        space_split(text, 0)
    }

    fn read_token(&mut self, text: &str) -> (t: Option<Token>) {
        proof {
            use_type_invariant(&*self);
        }
        if !self.loaded {
            let toks = Self::scan(text);
            self.given = 0;
            self.words = toks;
            self.loaded = true;
            proof {
                assert(token_views(self.words@).skip(0) =~= token_views(self.words@));
            }
        }
        if self.given < self.words.len() {
            let tok = (&self.words[self.given]).dup();
            let ghost rem = token_views(self.words@).skip(self.given as int);
            self.given = self.given + 1;
            proof {
                assert(rem[0] == tok@);
                assert(token_views(self.words@).skip(self.given as int) =~= rem.skip(1));
            }
            Some(tok)
        } else {
            proof {
                assert(token_views(self.words@).skip(self.given as int).len() == 0);
            }
            None
        }
    }
}

/// The regex crate's compiled regular expression, opaque to the
/// verifier.
#[verifier::external_type_specification]
#[verifier::external_body]
pub struct ExRegex(regex::Regex);

/// The regex crate's compilation error, opaque to the verifier.
#[verifier::external_type_specification]
#[verifier::external_body]
pub struct ExRegexError(regex::Error);

/// The views of a sequence of strings.
pub open spec fn string_views(s: Seq<String>) -> Seq<Seq<char>> {
    s.map_values(|x: String| x@)
}

/// Whether the regex crate accepts a pattern: compilation succeeds or
/// fails as a function of the pattern alone.
pub uninterp spec fn regex_compiles(pattern: Seq<char>) -> bool;

/// The substrings of a text delimited by a pattern's matches: what the
/// regex crate's split yields, empty pieces included.
pub uninterp spec fn regex_pieces(pattern: Seq<char>, text: Seq<char>) -> Seq<Seq<char>>;

/// The byte ranges of a pattern's successive, non-overlapping matches in
/// a text, in order.
pub uninterp spec fn regex_ranges(pattern: Seq<char>, text: Seq<char>) -> Seq<(usize, usize)>;

/// The tokens a pattern splits a text into: the pieces between the
/// matches, each at the byte offset where the preceding match ended.
pub open spec fn regex_split_tokens(pattern: Seq<char>, text: Seq<char>) -> Seq<(Seq<char>, nat)> {
    Seq::new(
        regex_pieces(pattern, text).len(),
        |i: int|
            (
                regex_pieces(pattern, text)[i],
                if i == 0 {
                    0nat
                } else {
                    regex_ranges(pattern, text)[i - 1].1 as nat
                },
            ),
    )
}

/// What stands at each position of the token sequence of a split.
proof fn lemma_regex_token(pattern: Seq<char>, text: Seq<char>, i: int)
    requires
        0 <= i < regex_split_tokens(pattern, text).len(),
    ensures
        regex_split_tokens(pattern, text).len() == regex_pieces(pattern, text).len(),
        regex_split_tokens(pattern, text)[i].0 == regex_pieces(pattern, text)[i],
        i == 0 ==> regex_split_tokens(pattern, text)[i].1 == 0,
        i > 0 ==> regex_split_tokens(pattern, text)[i].1 == regex_ranges(pattern, text)[i - 1].1
            as nat,
{
}

/// Tokeniser that splits the input into tokens by the provided regex:
/// the tokens are the stretches of text between the matches.
pub struct RegexTokeniser {
    // the pattern the regex was compiled from; the two fields are coupled
    // by the trusted constructor and never change afterwards
    pattern: String,
    regex: regex::Regex,
    words: Vec<Token>,
    given: usize,
    loaded: bool,
}

impl View for RegexTokeniser {
    type V = Option<Seq<(Seq<char>, nat)>>;

    closed spec fn view(&self) -> Option<Seq<(Seq<char>, nat)>> {
        if self.loaded {
            Some(token_views(self.words@).skip(self.given as int))
        } else {
            None
        }
    }
}

impl RegexTokeniser {
    #[verifier::type_invariant]
    spec fn inv(self) -> bool {
        self.given <= self.words@.len()
    }

    /// The pattern this tokeniser splits by.
    pub closed spec fn spec_pattern(self) -> Seq<char> {
        self.pattern@
    }

    /// Create a tokeniser for the given pattern.
    ///
    /// Relies on Regex::new: the pattern is compiled, an invalid one is
    /// reported as an error, and whether it compiles depends on the
    /// pattern alone.
    #[verifier::external_body]
    pub fn new(pattern: &str) -> (r: Result<Self, regex::Error>)
        ensures
            r is Ok <==> regex_compiles(pattern@),
            r matches Ok(t) ==> t.spec_pattern() == pattern@ && t@ is None,
    {
        Ok(Self {
            pattern: pattern.to_owned(),
            regex: regex::Regex::new(pattern)?,
            words: Vec::new(),
            given: 0,
            loaded: false,
        })
    }

    /// A fresh tokeniser for the same pattern, that has read nothing yet.
    ///
    /// Relies on Regex::clone: the clone matches exactly as the original
    /// does.
    #[verifier::external_body]
    fn fresh(&self) -> (r: Self)
        ensures
            r.spec_pattern() == self.spec_pattern(),
            r@ is None,
    {
        Self {
            pattern: self.pattern.clone(),
            regex: self.regex.clone(),
            words: Vec::new(),
            given: 0,
            loaded: false,
        }
    }

    /// Relies on Regex::split: the substrings of the text delimited by
    /// the pattern's matches, one more piece than there are matches.
    #[verifier::external_body]
    fn split_pieces(&self, text: &str) -> (r: Vec<String>)
        ensures
            string_views(r@) == regex_pieces(self.spec_pattern(), text@),
            r@.len() == regex_ranges(self.spec_pattern(), text@).len() + 1,
    {
        self.regex.split(text).map(|s| s.to_owned()).collect()
    }

    /// Relies on Regex::find_iter: the byte ranges of the successive,
    /// non-overlapping matches of the pattern in the text, in order.
    #[verifier::external_body]
    fn match_ranges(&self, text: &str) -> (r: Vec<(usize, usize)>)
        ensures
            r@ == regex_ranges(self.spec_pattern(), text@),
    {
        self.regex.find_iter(text).map(|m| (m.start(), m.end())).collect()
    }

    /// Split a whole text by the pattern, producing every token at once.
    fn scan(&self, text: &str) -> (out: Vec<Token>)
        ensures
            token_views(out@) == regex_split_tokens(self.spec_pattern(), text@),
    {
        let ghost gp = regex_pieces(self.spec_pattern(), text@);
        let ghost gr = regex_ranges(self.spec_pattern(), text@);
        let ghost toks = regex_split_tokens(self.spec_pattern(), text@);
        let pieces = self.split_pieces(text);
        let ranges = self.match_ranges(text);
        let mut out: Vec<Token> = Vec::new();
        let n = pieces.len();
        let mut i: usize = 0;
        proof {
            assert(gp.len() == pieces@.len());
            assert(toks.len() == gp.len());
        }
        while i < n
            invariant
                0 <= i <= n,
                n == pieces@.len(),
                gp == regex_pieces(self.spec_pattern(), text@),
                gr == regex_ranges(self.spec_pattern(), text@),
                string_views(pieces@) == gp,
                ranges@ == gr,
                n == gr.len() + 1,
                toks == regex_split_tokens(self.spec_pattern(), text@),
                toks.len() == n,
                out@.len() == i,
                forall|j: int| 0 <= j < i ==> (#[trigger] out@[j])@ == toks[j],
            decreases n - i,
        {
            let offset: u64 = if i == 0 {
                0
            } else {
                ranges[i - 1].1 as u64
            };
            let value = pieces[i].clone();
            out.push(Token::with_offset_at(value, offset));
            proof {
                assert(pieces@[i as int]@ == gp[i as int]);
                lemma_regex_token(self.spec_pattern(), text@, i as int);
                if i > 0 {
                    assert(offset == gr[i - 1].1 as u64);
                    assert(offset as nat == gr[i - 1].1 as nat);
                }
                assert(out@[i as int]@ == toks[i as int]);
            }
            i = i + 1;
        }
        proof {
            assert(token_views(out@) =~= toks);
        }
        out
    }
}

impl Tokeniser for RegexTokeniser {
    open spec fn splits(self, text: Seq<char>) -> Seq<(Seq<char>, nat)> {
        regex_split_tokens(self.spec_pattern(), text)
    }

    fn read_token(&mut self, text: &str) -> (t: Option<Token>) {
        proof {
            use_type_invariant(&*self);
        }
        if !self.loaded {
            let toks = self.scan(text);
            self.given = 0;
            self.words = toks;
            self.loaded = true;
            proof {
                assert(token_views(self.words@).skip(0) =~= token_views(self.words@));
            }
        }
        if self.given < self.words.len() {
            let tok = (&self.words[self.given]).dup();
            let ghost rem = token_views(self.words@).skip(self.given as int);
            self.given = self.given + 1;
            proof {
                assert(rem[0] == tok@);
                assert(token_views(self.words@).skip(self.given as int) =~= rem.skip(1));
            }
            Some(tok)
        } else {
            proof {
                assert(token_views(self.words@).skip(self.given as int).len() == 0);
            }
            None
        }
    }
}

/// Factory for [`RegexTokeniser`]s: hands out a fresh tokeniser for its
/// pattern for every file.
pub struct RegexTokeniserFactory {
    proto: RegexTokeniser,
}

impl RegexTokeniserFactory {
    /// Create a factory for the given pattern: it succeeds exactly when
    /// the pattern compiles.
    pub fn new(pattern: &str) -> (r: Result<Self, regex::Error>)
        ensures
            r is Ok <==> regex_compiles(pattern@),
            r matches Ok(f) ==> f.spec_pattern() == pattern@,
    {
        match RegexTokeniser::new(pattern) {
            Ok(t) => Ok(Self { proto: t }),
            Err(e) => Err(e),
        }
    }

    /// The pattern the produced tokenisers split by.
    pub closed spec fn spec_pattern(self) -> Seq<char> {
        self.proto.spec_pattern()
    }
}

impl TokeniserFactory for RegexTokeniserFactory {
    type Out = RegexTokeniser;

    fn create(&self) -> (r: RegexTokeniser)
        ensures
            r@ is None,
            r.spec_pattern() == self.spec_pattern(),
    {
        self.proto.fresh()
    }
}

/// Factory for [`SpaceTokeniser`]s.
pub struct SpaceTokeniserFactory;

impl TokeniserFactory for SpaceTokeniserFactory {
    type Out = SpaceTokeniser;

    fn create(&self) -> (r: SpaceTokeniser)
        ensures
            r@ is None,
    {
        SpaceTokeniser::new()
    }
}

} // verus!
