use webfront_dsl::lexicon::Lexicon;
use webfront_dsl::lexicon::LexiconMatch;
use webfront_dsl::token::Token;
use webfront_dsl::token::TokenMeaning;
use webfront_dsl::tokenizer::LexError;
use webfront_dsl::tokenizer::Tokenizer;

#[test]
fn tokenize_scope_pair() {
    let mut tokenizer = Tokenizer::new("{}");
    let tokens = tokenizer.tokenize().expect("tokenize failed");

    assert_eq!(2, tokens.len());
    assert_eq!("{", tokens[0].word);
    assert_eq!(true, matches!(tokens[0].state, TokenMeaning::OpenScope));
    assert_eq!("}", tokens[1].word);
    assert_eq!(true, matches!(tokens[1].state, TokenMeaning::CloseScope));
}

#[test]
fn tokenize_scope_pair_with_whitespace() {
    let mut adjacent = Tokenizer::new("{}");
    let mut spread = Tokenizer::new(" {\t\r\n} ");
    let adjacent_tokens = adjacent.tokenize().expect("tokenize failed");
    let spread_tokens = spread.tokenize().expect("tokenize failed");

    assert_eq!(adjacent_tokens.len(), spread_tokens.len());
    for i in 0..adjacent_tokens.len() {
        assert_eq!(adjacent_tokens[i].word, spread_tokens[i].word);
        assert_eq!(adjacent_tokens[i].state.name(), spread_tokens[i].state.name());
    }
}

#[test]
fn tokenize_whitespace_only_is_empty() {
    let mut tokenizer = Tokenizer::new(" \t\r\n  ");
    let tokens = tokenizer.tokenize().expect("tokenize failed");
    assert_eq!(0, tokens.len());
}

#[test]
fn tokenize_empty_source_is_empty() {
    let mut tokenizer = Tokenizer::new("");
    let tokens = tokenizer.tokenize().expect("tokenize failed");
    assert_eq!(0, tokens.len());
}

#[test]
fn tokenize_single_table_word() {
    let mut tokenizer = Tokenizer::new("{");
    let tokens = tokenizer.tokenize().expect("tokenize failed");

    assert_eq!(1, tokens.len());
    assert_eq!("{", tokens[0].word);
    assert_eq!(true, matches!(tokens[0].state, TokenMeaning::OpenScope));
}

#[test]
fn tokenize_illegal_byte() {
    let mut tokenizer = Tokenizer::new("a");
    let result = tokenizer.tokenize();

    if let Err(LexError::IllegalSequence(bytes)) = &result {
        assert_eq!(&vec![b'a'], bytes);
    } else {
        assert!(false, "Result was not an illegal sequence.")
    }
}

#[test]
fn tokenize_illegal_byte_after_scope() {
    let mut tokenizer = Tokenizer::new("{x}");
    let result = tokenizer.tokenize();

    if let Err(LexError::IllegalSequence(bytes)) = &result {
        assert_eq!(&vec![b'x'], bytes);
    } else {
        assert!(false, "Result was not an illegal sequence.")
    }
}

#[test]
fn tokenize_twice_yields_identical_sequences() {
    let source = "{ } {}";
    let mut first = Tokenizer::new(source);
    let mut second = Tokenizer::new(source);
    let first_tokens = first.tokenize().expect("tokenize failed");
    let second_tokens = second.tokenize().expect("tokenize failed");

    assert_eq!(4, first_tokens.len());
    assert_eq!(first_tokens.len(), second_tokens.len());
    for i in 0..first_tokens.len() {
        assert_eq!(first_tokens[i].word, second_tokens[i].word);
        assert_eq!(first_tokens[i].state.name(), second_tokens[i].state.name());
    }
}

#[test]
fn lexicon_resolves_longest_entry_on_last_byte() {
    let mut lexicon = Lexicon::new(true);
    let source = "findmetoobutlonger".as_bytes();
    let mut result = LexiconMatch::Illegal();

    for i in 0..source.len() {
        result = lexicon.advance(source[i]);
        if i < source.len() - 1 {
            assert_eq!(true, matches!(result, LexiconMatch::Unresolved()));
        }
    }

    if let LexiconMatch::Resolved(token) = &result {
        assert_eq!(true, token.equals("findmetoobutlonger".as_bytes()));
    } else {
        assert!(false, "Result was not resolved.")
    }
}

#[test]
fn lexicon_reports_illegal_byte_immediately() {
    let mut lexicon = Lexicon::new(true);

    let result = lexicon.advance(b'q');
    assert_eq!(true, matches!(result, LexiconMatch::Illegal()));
}

#[test]
fn lexicon_end_of_source_with_nothing_pending() {
    let lexicon = Lexicon::new(true);

    let result = lexicon.end_of_source();
    assert_eq!(true, matches!(result, LexiconMatch::Nothing()));
}

#[test]
fn token_equals_is_byte_exact() {
    let token = Token::new("findme", TokenMeaning::TestValue);

    assert_eq!(true, token.equals("findme".as_bytes()));
    assert_eq!(false, token.equals("findm".as_bytes()));
    assert_eq!(false, token.equals("findmf".as_bytes()));
    assert_eq!(false, token.equals("findmetoo".as_bytes()));
}

#[test]
fn token_starts_with_is_prefix_check() {
    let token = Token::new("findme", TokenMeaning::TestValue);

    assert_eq!(true, token.starts_with("fin".as_bytes()));
    assert_eq!(true, token.starts_with("findme".as_bytes()));
    assert_eq!(true, token.starts_with("".as_bytes()));
    assert_eq!(false, token.starts_with("fax".as_bytes()));
}

#[test]
fn token_meaning_names_are_stable() {
    assert_eq!("OpenScope", TokenMeaning::OpenScope.name());
    assert_eq!("CloseScope", TokenMeaning::CloseScope.name());
    assert_eq!("TestValue", TokenMeaning::TestValue.name());
}
