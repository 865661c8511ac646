use vstd::prelude::*;
use vstd::utf8::encode_utf8;
use vstd::utf8::is_ascii_chars;
use vstd::utf8::is_ascii_chars_encode_utf8;

verus! {

/// The closed set of meanings a recognized token can carry.
#[derive(Debug, Clone, Copy)]
pub enum TokenMeaning {
    TestValue,
    OpenScope,
    CloseScope,
}

/// The mathematical value of a [`Token`]: the word as the byte sequence the
/// scanner compares against, together with its meaning tag.
pub struct TokenView {
    pub word: Seq<u8>,
    pub state: TokenMeaning,
}

/// One recognized lexical unit: the exact literal text of a keyword or symbol
/// and its meaning.  Tokens are immutable values; matches produced during
/// scanning are copies of the table entries held by the lexicon.
#[derive(Debug)]
pub struct Token {
    pub word: String,
    pub state: TokenMeaning,
}

impl View for Token {
    type V = TokenView;

    open spec fn view(&self) -> TokenView {
        TokenView { word: encode_utf8(self.word@), state: self.state }
    }
}

impl Clone for Token {
    fn clone(&self) -> (res: Token)
        ensures
            res == *self,
    {
        Token { word: self.word.clone(), state: self.state }
    }
}

/// The bytes of an ASCII character sequence, one byte per character.
pub open spec fn ascii_bytes(chars: Seq<char>) -> Seq<u8> {
    chars.map_values(|c: char| c as u8)
}

/// For ASCII text the UTF-8 encoding is exactly one byte per character.
pub proof fn lemma_ascii_bytes(chars: Seq<char>)
    requires
        is_ascii_chars(chars),
    ensures
        encode_utf8(chars) == ascii_bytes(chars),
{
    is_ascii_chars_encode_utf8(chars);
    assert(encode_utf8(chars) =~= ascii_bytes(chars));
}

impl TokenMeaning {
    /// The stable, human-readable name of this meaning tag.
    pub open spec fn text(self) -> Seq<char> {
        match self {
            TokenMeaning::TestValue => "TestValue"@,
            TokenMeaning::OpenScope => "OpenScope"@,
            TokenMeaning::CloseScope => "CloseScope"@,
        }
    }

    /// Human-readable name of the meaning tag, for dumps and reports.
    pub fn name(&self) -> (name: &'static str)
        ensures
            name@ == self.text(),
    {
        match self {
            TokenMeaning::TestValue => "TestValue",
            TokenMeaning::OpenScope => "OpenScope",
            TokenMeaning::CloseScope => "CloseScope",
        }
    }
}

impl Token {
    pub fn new(word: &str, state: TokenMeaning) -> (token: Token)
        ensures
            token@.word == encode_utf8(word@),
            token@.state == state,
    {
        Token { word: word.to_owned(), state }
    }

    /// Whether `tokens` is byte-for-byte equal to this token's word.
    pub fn equals(&self, tokens: &[u8]) -> (res: bool)
        ensures
            res == (tokens@ == self@.word),
    {
        let word_bytes: &[u8] = self.word.as_str().as_bytes();

        if word_bytes.len() != tokens.len() {
            return false;
        }

        let mut n: usize = 0;
        while n < word_bytes.len()
            invariant
                word_bytes@ == self@.word,
                tokens@.len() == word_bytes@.len(),
                0 <= n <= word_bytes@.len(),
                forall|k: int| 0 <= k < n ==> tokens@[k] == word_bytes@[k],
            decreases word_bytes@.len() - n,
        {
            if tokens[n] != word_bytes[n] {
                return false;
            }
            n = n + 1;
        }

        proof {
            assert(tokens@ =~= self@.word);
        }
        true
    }

    /// Whether `tokens` is a byte-for-byte prefix of this token's word.
    pub fn starts_with(&self, tokens: &[u8]) -> (res: bool)
        requires
            tokens@.len() <= self@.word.len(),
        ensures
            res == tokens@.is_prefix_of(self@.word),
    {
        let word_bytes: &[u8] = self.word.as_str().as_bytes();

        let mut n: usize = 0;
        while n < tokens.len()
            invariant
                word_bytes@ == self@.word,
                tokens@.len() <= word_bytes@.len(),
                0 <= n <= tokens@.len(),
                forall|k: int| 0 <= k < n ==> tokens@[k] == word_bytes@[k],
            decreases tokens@.len() - n,
        {
            if word_bytes[n] != tokens[n] {
                assert(!tokens@.is_prefix_of(self@.word));
                return false;
            }
            n = n + 1;
        }

        proof {
            assert(tokens@ =~= self@.word.subrange(0, tokens@.len() as int));
        }
        true
    }
}

} // verus!
