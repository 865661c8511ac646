use vstd::prelude::*;
use vstd::utf8::encode_utf8;
use vstd::utf8::is_ascii_chars;
use crate::token::Token;
use crate::token::TokenMeaning;
use crate::token::TokenView;
use crate::token::ascii_bytes;
use crate::token::lemma_ascii_bytes;

verus! {

/// The four ASCII whitespace codes the scanner skips: tab, newline,
/// carriage return and space.
pub open spec fn is_lex_whitespace(byte: u8) -> bool {
    byte == 9 || byte == 10 || byte == 13 || byte == 32
}

/// The views of a sequence of tokens.
pub open spec fn views_of(tokens: Seq<Token>) -> Seq<TokenView> {
    tokens.map_values(|t: Token| t@)
}

/// The table entries still consistent with `acc`: exactly those whose word
/// has `acc` as a byte-exact prefix (which requires the word to be at least
/// as long as `acc`).
pub open spec fn candidates_of(table: Seq<TokenView>, acc: Seq<u8>) -> Seq<TokenView> {
    table.filter(|t: TokenView| acc.is_prefix_of(t.word))
}

/// No two table entries share identical word text.
pub open spec fn distinct_words(table: Seq<TokenView>) -> bool {
    forall|i: int, j: int|
        0 <= i < table.len() && 0 <= j < table.len() && i != j ==> #[trigger] table[i].word
            != #[trigger] table[j].word
}

/// Some table entry's word is byte-exact equal to `acc`.
pub open spec fn has_exact(table: Seq<TokenView>, acc: Seq<u8>) -> bool {
    exists|i: int| 0 <= i < table.len() && #[trigger] table[i].word == acc
}

/// The index of a table entry whose word equals `acc`; unique when the
/// table's words are distinct.
pub open spec fn exact_ix(table: Seq<TokenView>, acc: Seq<u8>) -> int {
    choose|i: int| 0 <= i < table.len() && #[trigger] table[i].word == acc
}

/// The fixed grammar table: open scope `{` and close scope `}`.
pub open spec fn grammar_table() -> Seq<TokenView> {
    seq![
        TokenView { word: ascii_bytes("{"@), state: TokenMeaning::OpenScope },
        TokenView { word: ascii_bytes("}"@), state: TokenMeaning::CloseScope },
    ]
}

/// The grammar table extended with the literal tokens that exist solely to
/// exercise ambiguity scenarios.
pub open spec fn diagnostic_table() -> Seq<TokenView> {
    grammar_table() + seq![
        TokenView { word: ascii_bytes("findme"@), state: TokenMeaning::TestValue },
        TokenView { word: ascii_bytes("findmetoo"@), state: TokenMeaning::TestValue },
        TokenView { word: ascii_bytes("findmetoobutlonger"@), state: TokenMeaning::TestValue },
    ]
}

/// An empty accumulation is a prefix of every word, so it filters nothing
/// out of a table.
pub proof fn lemma_candidates_of_empty(table: Seq<TokenView>)
    ensures
        candidates_of(table, Seq::<u8>::empty()) == table,
    decreases table.len(),
{
    reveal(Seq::filter);
    if table.len() > 0 {
        lemma_candidates_of_empty(table.drop_last());
        let word = table.last().word;
        assert(word.subrange(0, 0) =~= Seq::<u8>::empty());
        assert(Seq::<u8>::empty().is_prefix_of(word));
        assert(table.drop_last().push(table.last()) =~= table);
    }
}

/// A word that extends `acc` by one byte still extends `acc`.
pub proof fn lemma_prefix_extend(acc: Seq<u8>, byte: u8, word: Seq<u8>)
    requires
        acc.push(byte).is_prefix_of(word),
    ensures
        acc.is_prefix_of(word),
{
    assert forall|k: int| 0 <= k < acc.len() implies acc[k] == word.subrange(
        0,
        acc.len() as int,
    )[k] by {
        assert(acc.push(byte)[k] == word.subrange(0, (acc.len() + 1) as int)[k]);
    }
    assert(acc =~= word.subrange(0, acc.len() as int));
}

/// Narrowing the candidate set with one more byte gives the same set as
/// filtering the whole table with the extended accumulation.
pub proof fn lemma_candidates_narrow(table: Seq<TokenView>, acc: Seq<u8>, byte: u8)
    ensures
        candidates_of(candidates_of(table, acc), acc.push(byte)) == candidates_of(
            table,
            acc.push(byte),
        ),
    decreases table.len(),
{
    broadcast use Seq::group_seq_extra;

    reveal(Seq::filter);
    if table.len() > 0 {
        let rest = table.drop_last();
        let last = table.last();
        lemma_candidates_narrow(rest, acc, byte);
        if acc.push(byte).is_prefix_of(last.word) {
            lemma_prefix_extend(acc, byte, last.word);
        }
    }
}

/// One more table entry extends the candidate set exactly when the
/// accumulation is a prefix of its word.
pub proof fn lemma_candidates_push(table: Seq<TokenView>, entry: TokenView, acc: Seq<u8>)
    ensures
        candidates_of(table.push(entry), acc) == (if acc.is_prefix_of(entry.word) {
            candidates_of(table, acc).push(entry)
        } else {
            candidates_of(table, acc)
        }),
{
    reveal(Seq::filter);
    assert(table.push(entry).drop_last() =~= table);
    assert(table.push(entry).last() == entry);
}

/// A table entry whose word has `acc` as a prefix is among the candidates
/// for `acc`; in particular one whose word equals `acc` is.
pub proof fn lemma_candidate_member(table: Seq<TokenView>, acc: Seq<u8>, i: int)
    requires
        0 <= i < table.len(),
        acc.is_prefix_of(table[i].word) || table[i].word == acc,
    ensures
        candidates_of(table, acc).contains(table[i]),
        candidates_of(table, acc).len() > 0,
{
    broadcast use vstd::seq_lib::group_filter_ensures;

    assert(acc.subrange(0, acc.len() as int) =~= acc);
    assert(acc.is_prefix_of(table[i].word));
    let cands = candidates_of(table, acc);
    assert(cands.contains(table[i]));
    let j = choose|j: int| 0 <= j < cands.len() && cands[j] == table[i];
    assert(cands.len() > j >= 0);
}

/// Every candidate comes from the table and has `acc` as a prefix of its
/// word.
pub proof fn lemma_candidate_origin(table: Seq<TokenView>, acc: Seq<u8>, entry: TokenView)
    requires
        candidates_of(table, acc).contains(entry),
    ensures
        table.contains(entry),
        acc.is_prefix_of(entry.word),
{
    broadcast use Seq::group_seq_extra;
    broadcast use vstd::seq_lib::group_filter_ensures;

    let cands = candidates_of(table, acc);
    let j = choose|j: int| 0 <= j < cands.len() && cands[j] == entry;
    assert(acc.is_prefix_of(cands[j].word));
}

/// The exact bytes of both tables' words, and that no two entries of either
/// table share identical word text.
pub proof fn lemma_table_words()
    ensures
        encode_utf8("{"@) == ascii_bytes("{"@),
        encode_utf8("}"@) == ascii_bytes("}"@),
        encode_utf8("findme"@) == ascii_bytes("findme"@),
        encode_utf8("findmetoo"@) == ascii_bytes("findmetoo"@),
        encode_utf8("findmetoobutlonger"@) == ascii_bytes("findmetoobutlonger"@),
        distinct_words(grammar_table()),
        distinct_words(diagnostic_table()),
{
    reveal_strlit("{");
    reveal_strlit("}");
    reveal_strlit("findme");
    reveal_strlit("findmetoo");
    reveal_strlit("findmetoobutlonger");
    assert(is_ascii_chars("{"@));
    assert(is_ascii_chars("}"@));
    assert(is_ascii_chars("findme"@));
    assert(is_ascii_chars("findmetoo"@));
    assert(is_ascii_chars("findmetoobutlonger"@));
    lemma_ascii_bytes("{"@);
    lemma_ascii_bytes("}"@);
    lemma_ascii_bytes("findme"@);
    lemma_ascii_bytes("findmetoo"@);
    lemma_ascii_bytes("findmetoobutlonger"@);
    let table = diagnostic_table();
    assert(table[0].word.len() == 1);
    assert(table[1].word.len() == 1);
    assert(table[2].word.len() == 6);
    assert(table[3].word.len() == 9);
    assert(table[4].word.len() == 18);
    assert(table[0].word[0] == '{' as u8);
    assert(table[1].word[0] == '}' as u8);
    assert forall|i: int, j: int|
        0 <= i < table.len() && 0 <= j < table.len() && i != j implies #[trigger] table[i].word
        != #[trigger] table[j].word by {
        if table[i].word.len() == table[j].word.len() {
            assert(table[i].word[0] != table[j].word[0]);
        }
    }
    let short = grammar_table();
    assert(short[0] == table[0]);
    assert(short[1] == table[1]);
}

/// Lexicon holds all the grammar for the language: the fixed keyword table,
/// the bytes consumed since the last reset, and the candidate entries still
/// consistent with them.  For every character call [`Lexicon::advance`],
/// which reports whether the bytes so far resolved to one keyword, still have
/// possibilities, or match nothing.
pub struct Lexicon {
    /// List of keywords that are available in the language.
    tokens: Vec<Token>,
    /// The current byte sequence being matched to a keyword.
    match_value: Vec<u8>,
    /// All the possible keywords given the current match_value.
    matches: Vec<Token>,
}

/// LexiconMatch determines if a token has been found, can be found or was
/// illegal.  If resolved, the matched token is passed along.
#[derive(Debug, Clone)]
pub enum LexiconMatch {
    /// A single token matched one on one.
    Resolved(Token),
    /// Nothing matched exactly yet, but one or more candidates remain.
    Unresolved(),
    /// The consumed bytes match nothing and have no potential matches.
    Illegal(),
    /// Nothing was consumed; there is no pending work to resolve.
    Nothing(),
}

impl Lexicon {
    /// The keyword table, fixed for the lifetime of the lexicon.
    pub closed spec fn table(self) -> Seq<TokenView> {
        views_of(self.tokens@)
    }

    /// The bytes consumed since the last reset.
    pub closed spec fn accumulated(self) -> Seq<u8> {
        self.match_value@
    }

    /// The live candidate set for the token currently being scanned.
    pub closed spec fn candidates(self) -> Seq<TokenView> {
        views_of(self.matches@)
    }

    /// The lexicon's invariant: the table's words are distinct, and the
    /// candidate set is exactly the table filtered by the accumulation.
    pub open spec fn wf(self) -> bool {
        &&& distinct_words(self.table())
        &&& self.candidates() == candidates_of(self.table(), self.accumulated())
    }

    /// Builds the fixed table: always open scope `{` and close scope `}`,
    /// plus a small set of additional literal tokens when the diagnostic flag
    /// is set, used solely to exercise ambiguity scenarios.
    pub fn new(tests: bool) -> (lexicon: Lexicon)
        ensures
            lexicon.wf(),
            lexicon.accumulated() == Seq::<u8>::empty(),
            lexicon.table() == (if tests {
                diagnostic_table()
            } else {
                grammar_table()
            }),
    {
        let mut lexicon = Lexicon {
            tokens: vec![
                Token::new("{", TokenMeaning::OpenScope),
                Token::new("}", TokenMeaning::CloseScope),
            ],
            match_value: Vec::new(),
            matches: Vec::<Token>::new(),
        };

        if tests {
            lexicon.tokens.push(Token::new("findme", TokenMeaning::TestValue));
            lexicon.tokens.push(Token::new("findmetoo", TokenMeaning::TestValue));
            lexicon.tokens.push(Token::new("findmetoobutlonger", TokenMeaning::TestValue));
        }

        proof {
            lemma_table_words();
            if tests {
                assert(views_of(lexicon.tokens@) =~= diagnostic_table());
            } else {
                assert(views_of(lexicon.tokens@) =~= grammar_table());
            }
        }

        lexicon.reset();
        return lexicon;
    }

    /// Clears the accumulation and restores the candidate set to the full
    /// table.
    pub fn reset(&mut self)
        ensures
            final(self).table() == old(self).table(),
            final(self).accumulated() == Seq::<u8>::empty(),
            final(self).candidates() == final(self).table(),
            distinct_words(old(self).table()) ==> final(self).wf(),
    {
        self.match_value.clear();
        self.matches = self.tokens.clone();
        proof {
            assert forall|i: int| 0 <= i < self.tokens@.len() implies self.matches@[i]
                == self.tokens@[i] by {
                assert(vstd::pervasive::cloned(self.tokens@[i], self.matches@[i]));
            }
            assert(self.matches@ =~= self.tokens@);
            lemma_candidates_of_empty(self.table());
        }
    }

    /// Consumes a new byte and tries to match the accumulated value.
    ///
    /// Whitespace never advances the scan.  Otherwise the byte is appended
    /// and the candidate set narrowed: no candidates left is illegal (and
    /// resets the state), a single candidate equal to the accumulation
    /// resolves to that token (and resets the state), and anything else waits
    /// for more input.
    pub fn advance(&mut self, character: u8) -> (result: LexiconMatch)
        requires
            old(self).wf(),
        ensures
            final(self).wf(),
            final(self).table() == old(self).table(),
            is_lex_whitespace(character) ==> {
                &&& final(self).accumulated() == old(self).accumulated()
                &&& final(self).candidates() == old(self).candidates()
                &&& result matches LexiconMatch::Unresolved()
            },
            !is_lex_whitespace(character) ==> ({
                let acc = old(self).accumulated().push(character);
                let cands = candidates_of(old(self).table(), acc);
                &&& (cands.len() == 0 ==> (result matches LexiconMatch::Illegal())
                    && final(self).accumulated() == Seq::<u8>::empty())
                &&& (cands.len() == 1 && cands[0].word == acc ==> (result matches
                    LexiconMatch::Resolved(token) && token@ == cands[0])
                    && final(self).accumulated() == Seq::<u8>::empty())
                &&& ((cands.len() > 1 || (cands.len() == 1 && cands[0].word != acc)) ==> (result
                    matches LexiconMatch::Unresolved()) && final(self).accumulated() == acc
                    && final(self).candidates() == cands)
            }),
    {
        // Whitespace has no meaning here; it is never appended.
        if self.is_whitespace(&character) {
            return LexiconMatch::Unresolved();
        }

        self.match_value.push(character);
        self.filter_matches();

        proof {
            lemma_candidates_narrow(
                old(self).table(),
                old(self).accumulated(),
                character,
            );
        }

        if self.matches.len() == 0 {
            // Every candidate was filtered out: the statement is illegal.
            self.reset();
            return LexiconMatch::Illegal();
        } else if self.matches.len() == 1 {
            // One possibility left; it only resolves once it is byte-exact.
            let found_token = self.matches[0].clone();

            if found_token.equals(self.match_value.as_slice()) {
                self.reset();
                return LexiconMatch::Resolved(found_token);
            } else {
                return LexiconMatch::Unresolved();
            }
        } else {
            // There are still several potential matches.
            return LexiconMatch::Unresolved();
        }
    }

    /// Called once, after the last byte of input, to flush a pending partial
    /// match: nothing pending is the normal terminal state, a candidate whose
    /// word equals the accumulation resolves to it, and anything else is
    /// illegal.
    pub fn end_of_source(&self) -> (result: LexiconMatch)
        requires
            self.wf(),
        ensures
            self.accumulated().len() == 0 ==> result matches LexiconMatch::Nothing(),
            self.accumulated().len() > 0 && has_exact(self.table(), self.accumulated()) ==> (result
                matches LexiconMatch::Resolved(token) && token@ == self.table()[exact_ix(
                self.table(),
                self.accumulated(),
            )]),
            self.accumulated().len() > 0 && !has_exact(self.table(), self.accumulated())
                ==> result matches LexiconMatch::Illegal(),
    {
        // No pending bytes left: the run closes cleanly.
        if self.match_value.len() == 0 {
            return LexiconMatch::Nothing();
        }

        // Look for a candidate that matches the pending bytes exactly.
        let ghost acc = self.accumulated();
        let ghost cands = self.candidates();
        let mut i: usize = 0;
        while i < self.matches.len()
            invariant
                self.wf(),
                acc == self.accumulated(),
                acc.len() > 0,
                cands == self.candidates(),
                0 <= i <= self.matches@.len(),
                cands.len() == self.matches@.len(),
                forall|j: int| 0 <= j < i ==> #[trigger] cands[j].word != acc,
            decreases self.matches@.len() - i,
        {
            if self.matches[i].equals(self.match_value.as_slice()) {
                let found_token = self.matches[i].clone();
                proof {
                    let table = self.table();
                    assert(cands[i as int] == found_token@);
                    assert(cands.contains(found_token@));
                    lemma_candidate_origin(table, acc, found_token@);
                    let k = choose|k: int| 0 <= k < table.len() && table[k] == found_token@;
                    assert(table[k].word == acc);
                    let k0 = exact_ix(table, acc);
                    assert(table[k0].word == acc);
                }
                return LexiconMatch::Resolved(found_token);
            }
            i = i + 1;
        }

        proof {
            let table = self.table();
            if has_exact(table, acc) {
                let k0 = exact_ix(table, acc);
                lemma_candidate_member(table, acc, k0);
                let j = choose|j: int| 0 <= j < cands.len() && cands[j] == table[k0];
                assert(cands[j].word == acc);
            }
        }
        return LexiconMatch::Illegal();
    }

    /// Retains only the candidates whose word is at least as long as the
    /// accumulation and has it as a byte-exact prefix.
    fn filter_matches(&mut self)
        ensures
            final(self).table() == old(self).table(),
            final(self).accumulated() == old(self).accumulated(),
            final(self).candidates() == candidates_of(
                old(self).candidates(),
                old(self).accumulated(),
            ),
    {
        broadcast use Seq::group_seq_extra;

        let mut new_matches = Vec::<Token>::new();
        let ghost views = views_of(self.matches@);
        let ghost acc = self.match_value@;

        let mut i: usize = 0;
        while i < self.matches.len()
            invariant
                views == views_of(self.matches@),
                acc == self.match_value@,
                0 <= i <= self.matches@.len(),
                views_of(new_matches@) == candidates_of(views.take(i as int), acc),
            decreases self.matches@.len() - i,
        {
            let ghost previous = views_of(new_matches@);

            // If the keyword is shorter than the current value, it could
            // never be this value; otherwise it must start with the value.
            let entry = &self.matches[i];
            let word_len: usize = entry.word.as_str().as_bytes().len();
            let keep: bool;
            if self.match_value.len() > word_len {
                keep = false;
                proof {
                    assert(!acc.is_prefix_of(views[i as int].word));
                }
            } else {
                keep = entry.starts_with(self.match_value.as_slice());
            }

            if keep {
                new_matches.push(self.matches[i].clone());
            }

            proof {
                let extended = views.take(i as int).push(views[i as int]);
                assert(views.take(i as int + 1) =~= extended);
                assert(candidates_of(extended, acc) == candidates_of(views.take(i as int + 1), acc));
                lemma_candidates_push(views.take(i as int), views[i as int], acc);
                if keep {
                    assert(views_of(new_matches@) =~= previous.push(views[i as int]));
                } else {
                    assert(views_of(new_matches@) =~= previous);
                }
            }
            i = i + 1;
        }

        proof {
            assert(views.take(self.matches@.len() as int) =~= views);
        }
        self.matches = new_matches;
    }

    /// Whether the byte is one of the four ASCII whitespace codes.
    pub fn is_whitespace(&self, token: &u8) -> (result: bool)
        ensures
            result == is_lex_whitespace(*token),
    {
        return *token == 9 || *token == 10 || *token == 13 || *token == 32;
    }
}

} // verus!
