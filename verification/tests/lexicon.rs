use webfront_dsl::lexicon::Lexicon;
use webfront_dsl::lexicon::LexiconMatch;
use webfront_dsl::token::TokenMeaning;

#[test]
fn lexicon_match_scope() {
    let mut lexicon = Lexicon::new(true);
    let source = "{".as_bytes();

    let result = lexicon.advance(source[0]);
    assert_eq!(true, matches!(result, LexiconMatch::Resolved(_)));
}

#[test]
fn lexicon_match_scope_open_and_close() {
    let mut lexicon = Lexicon::new(true);
    let source = "{}".as_bytes();

    let mut result = lexicon.advance(source[0]);

    if let LexiconMatch::Resolved(token) = &result {
        assert_eq!(true, matches!(token.state, TokenMeaning::OpenScope));
    } else {
        assert!(false, "Result 1 was not resolved.")
    }

    result = lexicon.advance(source[1]);

    if let LexiconMatch::Resolved(token) = &result {
        assert_eq!(true, matches!(token.state, TokenMeaning::CloseScope));
    } else {
        assert!(false, "Result 2 was not resolved.")
    }
}

#[test]
fn lexicon_match_scope_open_and_close_with_whitspace() {
    let mut lexicon = Lexicon::new(true);
    let source = "{ }".as_bytes();

    let mut result = lexicon.advance(source[0]);
    if let LexiconMatch::Resolved(token) = &result {
        assert_eq!(true, matches!(token.state, TokenMeaning::OpenScope));
    } else {
        assert!(false, "Result 1 was not resolved.")
    }

    result = lexicon.advance(source[1]);
    assert_eq!(true, matches!(result, LexiconMatch::Unresolved()));

    result = lexicon.advance(source[2]);
    if let LexiconMatch::Resolved(token) = &result {
        assert_eq!(true, matches!(token.state, TokenMeaning::CloseScope));
    } else {
        assert!(false, "Result 3 was not resolved.")
    }
}

#[test]
fn lexicon_can_manage_eos() {
    let mut lexicon = Lexicon::new(true);
    let source = "findme".as_bytes();
    let mut result = LexiconMatch::Illegal();

    for i in 0..6 {
        result = lexicon.advance(source[i]);
        assert_eq!(true, matches!(result, LexiconMatch::Unresolved()));
    }

    result = lexicon.end_of_source();
    assert_eq!(true, matches!(result, LexiconMatch::Resolved(_)));
}

#[test]
fn lexicon_match_multi_character_keyword() {
    let mut lexicon = Lexicon::new(true);
    let source = "findme".as_bytes();
    let mut result = LexiconMatch::Illegal();

    for i in 0..source.len() {
        result = lexicon.advance(source[i]);
        assert_eq!(true, matches!(result, LexiconMatch::Unresolved()));
    }

    result = lexicon.end_of_source();
    assert_eq!(true, matches!(result, LexiconMatch::Resolved(_)));
}

#[test]
fn lexicon_can_match_ambiguous_matches_shortest() {
    let mut lexicon = Lexicon::new(true);
    let source = "findme".as_bytes();
    let mut result = LexiconMatch::Illegal();

    for i in 0..source.len() {
        result = lexicon.advance(source[i]);
        assert_eq!(true, matches!(result, LexiconMatch::Unresolved()));
    }

    result = lexicon.end_of_source();
    if let LexiconMatch::Resolved(token) = &result {
        assert_eq!(true, token.equals("findme".as_bytes()));
    } else {
        assert!(false, "Result was not resolved.")
    };
}

#[test]
fn lexicon_can_match_ambiguous_matches_longest() {
    let mut lexicon = Lexicon::new(true);
    let source = "findmetoo".as_bytes();
    let mut result = LexiconMatch::Illegal();

    for i in 0..source.len() {
        result = lexicon.advance(source[i]);
        assert_eq!(true, matches!(result, LexiconMatch::Unresolved()));
    }

    result = lexicon.end_of_source();
    if let LexiconMatch::Resolved(token) = &result {
        assert_eq!(true, token.equals("findmetoo".as_bytes()));
    } else {
        assert!(false, "Result was not resolved.")
    };
}

#[test]
fn lexicon_can_match_ambiguous_matches_nothing() {
    let mut lexicon = Lexicon::new(true);
    let source = "findmet".as_bytes();
    let mut result = LexiconMatch::Illegal();

    for i in 0..source.len() {
        result = lexicon.advance(source[i]);
        assert_eq!(true, matches!(result, LexiconMatch::Unresolved()));
    }

    result = lexicon.end_of_source();
    assert_eq!(true, matches!(result, LexiconMatch::Illegal()));
}
