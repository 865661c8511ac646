use vstd::prelude::*;
use vstd::utf8::encode_utf8;
use crate::lexicon::Lexicon;
use crate::lexicon::LexiconMatch;
use crate::lexicon::candidates_of;
use crate::lexicon::exact_ix;
use crate::lexicon::grammar_table;
use crate::lexicon::has_exact;
use crate::lexicon::is_lex_whitespace;
use crate::lexicon::lemma_candidate_member;
use crate::lexicon::lemma_candidate_origin;
use crate::lexicon::distinct_words;
use crate::lexicon::views_of;
use crate::token::Token;
use crate::token::TokenView;

verus! {

/// The two fatal lexing conditions, each carrying the exact byte sequence
/// that caused the failure.
#[derive(Debug)]
pub enum LexError {
    /// The accumulated bytes match no table entry, not even as a prefix.
    IllegalSequence(Vec<u8>),
    /// Input ended while the accumulated bytes were a valid prefix of one or
    /// more entries but equal to none of them.
    UnresolvedTail(Vec<u8>),
}

/// The mathematical value of a [`LexError`].
pub enum LexErrorView {
    IllegalSequence(Seq<u8>),
    UnresolvedTail(Seq<u8>),
}

impl View for LexError {
    type V = LexErrorView;

    open spec fn view(&self) -> LexErrorView {
        match self {
            LexError::IllegalSequence(bytes) => LexErrorView::IllegalSequence(bytes@),
            LexError::UnresolvedTail(bytes) => LexErrorView::UnresolvedTail(bytes@),
        }
    }
}

/// Prepends the tokens already resolved to the outcome of lexing the rest of
/// the input; a failure swallows everything resolved before it.
pub open spec fn lex_join(
    done: Seq<TokenView>,
    rest: Result<Seq<TokenView>, LexErrorView>,
) -> Result<Seq<TokenView>, LexErrorView> {
    match rest {
        Ok(tokens) => Ok(done + tokens),
        Err(error) => Err(error),
    }
}

/// The outcome of scanning `input` against `table` with `acc` already
/// accumulated: the whole token sequence on success, or the first fatal
/// failure with its offending bytes.
///
/// Whitespace bytes are skipped without touching the accumulation.  Any
/// other byte extends it; no remaining candidate is an illegal sequence, a
/// single candidate matched byte-exact resolves (and the scan restarts
/// empty), and anything else waits for more input.  At end of input an empty
/// accumulation closes the run, an entry equal to the accumulation resolves,
/// and anything else is an unresolved tail.
pub open spec fn lex(
    table: Seq<TokenView>,
    acc: Seq<u8>,
    input: Seq<u8>,
) -> Result<Seq<TokenView>, LexErrorView>
    decreases input.len(),
{
    if input.len() == 0 {
        if acc.len() == 0 {
            Ok(Seq::empty())
        } else if has_exact(table, acc) {
            Ok(seq![table[exact_ix(table, acc)]])
        } else {
            Err(LexErrorView::UnresolvedTail(acc))
        }
    } else if is_lex_whitespace(input[0]) {
        lex(table, acc, input.drop_first())
    } else {
        let extended = acc.push(input[0]);
        let cands = candidates_of(table, extended);
        if cands.len() == 0 {
            Err(LexErrorView::IllegalSequence(extended))
        } else if cands.len() == 1 && cands[0].word == extended {
            lex_join(seq![cands[0]], lex(table, Seq::empty(), input.drop_first()))
        } else {
            lex(table, extended, input.drop_first())
        }
    }
}

proof fn lemma_lex_join_empty(rest: Result<Seq<TokenView>, LexErrorView>)
    ensures
        lex_join(Seq::<TokenView>::empty(), rest) == rest,
{
    match rest {
        Ok(tokens) => {
            assert(Seq::<TokenView>::empty() + tokens =~= tokens);
        },
        Err(_) => {},
    }
}

proof fn lemma_lex_join_push(
    done: Seq<TokenView>,
    entry: TokenView,
    rest: Result<Seq<TokenView>, LexErrorView>,
)
    ensures
        lex_join(done, lex_join(seq![entry], rest)) == lex_join(done.push(entry), rest),
{
    match rest {
        Ok(tokens) => {
            assert(done + (seq![entry] + tokens) =~= done.push(entry) + tokens);
        },
        Err(_) => {},
    }
}

/// Tokenizer drives a source byte buffer through a fresh [`Lexicon`] holding
/// the grammar-only table, collecting the resolved tokens.  One tokenizer
/// serves one run over one source; construct a new pair per source.
pub struct Tokenizer<'slice> {
    source: &'slice [u8],
    lexicon: Lexicon,
}

impl<'slice> Tokenizer<'slice> {
    /// The source bytes this tokenizer scans.
    pub closed spec fn source_bytes(self) -> Seq<u8> {
        self.source@
    }

    /// A freshly constructed tokenizer: its lexicon holds the grammar table
    /// with nothing accumulated.
    pub closed spec fn wf(self) -> bool {
        &&& self.lexicon.wf()
        &&& self.lexicon.table() == grammar_table()
        &&& self.lexicon.accumulated() == Seq::<u8>::empty()
    }

    /// Wraps the source and constructs a fresh lexicon with the grammar-only
    /// table (no diagnostic tokens).
    pub fn new(source: &'slice str) -> (tokenizer: Tokenizer<'slice>)
        ensures
            tokenizer.wf(),
            tokenizer.source_bytes() == encode_utf8(source@),
    {
        Tokenizer { source: source.as_bytes(), lexicon: Lexicon::new(false) }
    }

    /// Feeds the source bytes through the lexicon in order, collecting every
    /// resolved token, then flushes a pending partial match at end of input.
    ///
    /// The result is exactly what [`lex`] says of the source bytes: the full
    /// token sequence, or the first fatal failure with the offending bytes.
    pub fn tokenize(&mut self) -> (result: Result<Vec<Token>, LexError>)
        requires
            old(self).wf(),
        ensures
            final(self).source_bytes() == old(self).source_bytes(),
            (match result {
                Ok(tokens) => lex(grammar_table(), Seq::empty(), old(self).source_bytes())
                    == Ok::<Seq<TokenView>, LexErrorView>(views_of(tokens@)),
                Err(error) => lex(grammar_table(), Seq::empty(), old(self).source_bytes())
                    == Err::<Seq<TokenView>, LexErrorView>(error@),
            }),
    {
        let ghost src = self.source@;
        let mut tokens = Vec::<Token>::new();
        // Mirrors the lexicon's accumulation, so a failure can surface the
        // exact offending byte sequence.
        let mut pending = Vec::<u8>::new();

        proof {
            assert(src.skip(0) =~= src);
            lemma_lex_join_empty(lex(grammar_table(), Seq::<u8>::empty(), src));
            assert(views_of(tokens@) =~= Seq::<TokenView>::empty());
        }

        let mut i: usize = 0;
        while i < self.source.len()
            invariant
                self.source@ == src,
                src == old(self).source_bytes(),
                self.lexicon.wf(),
                self.lexicon.table() == grammar_table(),
                0 <= i <= src.len(),
                pending@ == self.lexicon.accumulated(),
                lex(grammar_table(), Seq::<u8>::empty(), src) == lex_join(
                    views_of(tokens@),
                    lex(grammar_table(), self.lexicon.accumulated(), src.skip(i as int)),
                ),
            decreases src.len() - i,
        {
            let byte: u8 = self.source[i];
            let ghost acc = self.lexicon.accumulated();
            let whitespace = self.lexicon.is_whitespace(&byte);
            if !whitespace {
                pending.push(byte);
            }
            let ghost done = views_of(tokens@);
            let result = self.lexicon.advance(byte);

            proof {
                assert(src.skip(i as int)[0] == src[i as int]);
                assert(src.skip(i as int).drop_first() =~= src.skip(i as int + 1));
            }

            match result {
                LexiconMatch::Resolved(token) => {
                    proof {
                        let extended = acc.push(byte);
                        let cands = candidates_of(grammar_table(), extended);
                        assert(cands.len() == 1 && cands[0].word == extended);
                        assert(token@ == cands[0]);
                        assert(lex(grammar_table(), acc, src.skip(i as int)) == lex_join(
                            seq![cands[0]],
                            lex(grammar_table(), Seq::<u8>::empty(), src.skip(i as int + 1)),
                        ));
                        lemma_lex_join_push(
                            done,
                            token@,
                            lex(grammar_table(), Seq::<u8>::empty(), src.skip(i as int + 1)),
                        );
                    }
                    tokens.push(token);
                    pending = Vec::new();
                    proof {
                        assert(views_of(tokens@) =~= done.push(tokens@.last()@));
                    }
                },
                LexiconMatch::Illegal() => {
                    proof {
                        let extended = acc.push(byte);
                        assert(candidates_of(grammar_table(), extended).len() == 0);
                        assert(lex(grammar_table(), acc, src.skip(i as int))
                            == Err::<Seq<TokenView>, LexErrorView>(
                            LexErrorView::IllegalSequence(extended),
                        ));
                        assert(pending@ == extended);
                    }
                    // The run fails immediately: no recovery in this pass.
                    return Err(LexError::IllegalSequence(pending));
                },
                _ => {
                    proof {
                        if is_lex_whitespace(byte) {
                            assert(lex(grammar_table(), acc, src.skip(i as int)) == lex(
                                grammar_table(),
                                acc,
                                src.skip(i as int + 1),
                            ));
                        } else {
                            let extended = acc.push(byte);
                            let cands = candidates_of(grammar_table(), extended);
                            assert(cands.len() > 1 || (cands.len() == 1 && cands[0].word
                                != extended));
                            assert(lex(grammar_table(), acc, src.skip(i as int)) == lex(
                                grammar_table(),
                                extended,
                                src.skip(i as int + 1),
                            ));
                        }
                    }
                },
            }
            i = i + 1;
        }

        proof {
            assert(src.skip(src.len() as int) =~= Seq::<u8>::empty());
        }

        let ghost acc = self.lexicon.accumulated();
        let ghost done = views_of(tokens@);
        let result = self.lexicon.end_of_source();

        match result {
            LexiconMatch::Resolved(token) => {
                proof {
                    assert(acc.len() > 0 && has_exact(grammar_table(), acc));
                    assert(lex(grammar_table(), acc, Seq::<u8>::empty())
                        == Ok::<Seq<TokenView>, LexErrorView>(
                        seq![grammar_table()[exact_ix(grammar_table(), acc)]],
                    ));
                    assert(done + seq![token@] =~= done.push(token@));
                }
                tokens.push(token);
                proof {
                    assert(views_of(tokens@) =~= done.push(tokens@.last()@));
                }
                return Ok(tokens);
            },
            LexiconMatch::Nothing() => {
                proof {
                    assert(acc.len() == 0);
                    assert(done + Seq::<TokenView>::empty() =~= done);
                }
                return Ok(tokens);
            },
            LexiconMatch::Illegal() => {
                proof {
                    assert(acc.len() > 0 && !has_exact(grammar_table(), acc));
                }
                return Err(LexError::UnresolvedTail(pending));
            },
            LexiconMatch::Unresolved() => {
                // end_of_source reports Nothing, Resolved or Illegal, never
                // Unresolved; this arm is unreachable.
                proof {
                    assert(false);
                }
                return Err(LexError::UnresolvedTail(pending));
            },
        }
    }
}

/// Whitespace-only input tokenizes to the empty sequence and never fails,
/// whatever the table.
pub proof fn lemma_whitespace_only(table: Seq<TokenView>, input: Seq<u8>)
    requires
        forall|i: int| 0 <= i < input.len() ==> is_lex_whitespace(#[trigger] input[i]),
    ensures
        lex(table, Seq::empty(), input) == Ok::<Seq<TokenView>, LexErrorView>(Seq::empty()),
    decreases input.len(),
{
    if input.len() > 0 {
        assert(is_lex_whitespace(input[0]));
        lemma_whitespace_only(table, input.drop_first());
    }
}

/// The non-whitespace bytes of `input`, in order.
pub open spec fn without_whitespace(input: Seq<u8>) -> Seq<u8>
    decreases input.len(),
{
    if input.len() == 0 {
        input
    } else if is_lex_whitespace(input[0]) {
        without_whitespace(input.drop_first())
    } else {
        seq![input[0]] + without_whitespace(input.drop_first())
    }
}

/// Whitespace transparency: scanning an input gives exactly the outcome of
/// scanning its non-whitespace bytes, so inserting or removing whitespace
/// anywhere never changes the resolved token sequence or the failure.
pub proof fn lemma_whitespace_transparent(table: Seq<TokenView>, acc: Seq<u8>, input: Seq<u8>)
    ensures
        lex(table, acc, without_whitespace(input)) == lex(table, acc, input),
    decreases input.len(),
{
    if input.len() == 0 {
    } else if is_lex_whitespace(input[0]) {
        lemma_whitespace_transparent(table, acc, input.drop_first());
    } else {
        let byte = input[0];
        let stripped = seq![byte] + without_whitespace(input.drop_first());
        assert(without_whitespace(input) == stripped);
        assert(stripped[0] == byte);
        assert(stripped.drop_first() =~= without_whitespace(input.drop_first()));
        let extended = acc.push(byte);
        let cands = candidates_of(table, extended);
        if cands.len() == 0 {
        } else if cands.len() == 1 && cands[0].word == extended {
            lemma_whitespace_transparent(table, Seq::<u8>::empty(), input.drop_first());
        } else {
            lemma_whitespace_transparent(table, extended, input.drop_first());
        }
    }
}

/// Two sources that agree on their non-whitespace bytes tokenize to the same
/// outcome.
pub proof fn lemma_whitespace_insensitive(table: Seq<TokenView>, left: Seq<u8>, right: Seq<u8>)
    requires
        without_whitespace(left) == without_whitespace(right),
    ensures
        lex(table, Seq::empty(), left) == lex(table, Seq::empty(), right),
{
    lemma_whitespace_transparent(table, Seq::<u8>::empty(), left);
    lemma_whitespace_transparent(table, Seq::<u8>::empty(), right);
}

/// Scanning is a pure function of the source bytes: two runs over equal
/// sources yield equal outcomes, so tokenizing the same source twice with
/// fresh tokenizers gives identical token sequences.
pub proof fn lemma_lex_deterministic(table: Seq<TokenView>, first: Seq<u8>, second: Seq<u8>)
    requires
        first == second,
    ensures
        lex(table, Seq::empty(), first) == lex(table, Seq::empty(), second),
{
}

/// An input equal to exactly one table entry's word resolves to that entry
/// alone: an exact match present at end of input wins even while longer
/// candidates sharing it as a prefix remain viable.  Holds for every entry
/// whose word is non-empty and free of whitespace bytes, as all words of a
/// real table are.
pub proof fn lemma_single_entry_word(table: Seq<TokenView>, k: int)
    requires
        distinct_words(table),
        0 <= k < table.len(),
        table[k].word.len() > 0,
        forall|j: int|
            0 <= j < table[k].word.len() ==> !is_lex_whitespace(#[trigger] table[k].word[j]),
    ensures
        lex(table, Seq::empty(), table[k].word) == Ok::<Seq<TokenView>, LexErrorView>(
            seq![table[k]],
        ),
{
    let word = table[k].word;
    lemma_scan_entry_word(table, k, 0);
    assert(word.take(0) =~= Seq::<u8>::empty());
    assert(word.skip(0) =~= word);
}

/// Invariant behind [`lemma_single_entry_word`]: with the first `consumed`
/// bytes of entry `k`'s word accumulated and the rest still to come, the
/// scan resolves to exactly that entry.
proof fn lemma_scan_entry_word(table: Seq<TokenView>, k: int, consumed: int)
    requires
        distinct_words(table),
        0 <= k < table.len(),
        table[k].word.len() > 0,
        forall|j: int|
            0 <= j < table[k].word.len() ==> !is_lex_whitespace(#[trigger] table[k].word[j]),
        0 <= consumed <= table[k].word.len(),
    ensures
        lex(table, table[k].word.take(consumed), table[k].word.skip(consumed))
            == Ok::<Seq<TokenView>, LexErrorView>(seq![table[k]]),
    decreases table[k].word.len() - consumed,
{
    let word = table[k].word;
    if consumed == word.len() {
        assert(word.take(consumed) =~= word);
        assert(word.skip(consumed) =~= Seq::<u8>::empty());
        assert(has_exact(table, word));
        let k0 = exact_ix(table, word);
        assert(table[k0].word == word);
        assert(k0 == k);
    } else {
        let byte = word[consumed];
        assert(!is_lex_whitespace(byte));
        assert(word.skip(consumed)[0] == byte);
        assert(word.skip(consumed).drop_first() =~= word.skip(consumed + 1));
        let extended = word.take(consumed).push(byte);
        assert(extended =~= word.take(consumed + 1));
        assert(extended.is_prefix_of(word)) by {
            assert(extended =~= word.subrange(0, consumed + 1));
        }
        lemma_candidate_member(table, extended, k);
        let cands = candidates_of(table, extended);
        if cands.len() == 1 && cands[0].word == extended {
            // The sole candidate is entry k itself, so its word ends here.
            let c = choose|c: int| 0 <= c < cands.len() && cands[c] == table[k];
            assert(c == 0);
            assert(word == extended);
            assert(consumed + 1 == word.len());
            assert(word.skip(consumed + 1) =~= Seq::<u8>::empty());
            assert(lex(table, Seq::<u8>::empty(), Seq::<u8>::empty())
                == Ok::<Seq<TokenView>, LexErrorView>(Seq::<TokenView>::empty()));
            assert(seq![cands[0]] + Seq::<TokenView>::empty() =~= seq![table[k]]);
        } else {
            lemma_scan_entry_word(table, k, consumed + 1);
        }
    }
}

/// A byte that begins no table entry's word, and is not whitespace, is
/// rejected as an illegal sequence by the very first step, whatever follows
/// it.
pub proof fn lemma_illegal_first_byte(table: Seq<TokenView>, byte: u8, rest: Seq<u8>)
    requires
        !is_lex_whitespace(byte),
        forall|i: int|
            #![trigger table[i].word]
            0 <= i < table.len() ==> table[i].word.len() == 0 || table[i].word[0] != byte,
    ensures
        lex(table, Seq::empty(), seq![byte] + rest) == Err::<Seq<TokenView>, LexErrorView>(
            LexErrorView::IllegalSequence(seq![byte]),
        ),
{
    let input = seq![byte] + rest;
    assert(input[0] == byte);
    let extended = Seq::<u8>::empty().push(byte);
    assert(extended =~= seq![byte]);
    let cands = candidates_of(table, extended);
    if cands.len() > 0 {
        assert(cands.contains(cands[0]));
        lemma_candidate_origin(table, extended, cands[0]);
        let k = choose|k: int| 0 <= k < table.len() && table[k] == cands[0];
        assert(table[k].word[0] == extended[0]);
        assert(false);
    }
}

} // verus!
