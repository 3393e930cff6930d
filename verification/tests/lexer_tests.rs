use markup_lex::lexer::{lex, Token};

#[test]
fn lexer_works() {
    let text = "I am _really_ excited.";
    let expected = vec![
        Token::Text("I am "),
        Token::ItalicsDelimiter,
        Token::Text("really"),
        Token::ItalicsDelimiter,
        Token::Text(" excited."),
    ];
    assert_eq!(lex(text), expected);
}

#[test]
fn lexer_empty_input() {
    let expected: Vec<Token> = vec![];
    assert_eq!(lex(""), expected);
}

#[test]
fn lexer_leading_delimiter() {
    assert_eq!(lex("*bold"), vec![Token::BoldDelimiter, Token::Text("bold")]);
}

#[test]
fn lexer_trailing_delimiter() {
    assert_eq!(lex("bold*"), vec![Token::Text("bold"), Token::BoldDelimiter]);
}

#[test]
fn lexer_adjacent_delimiters() {
    assert_eq!(lex("**"), vec![Token::BoldDelimiter, Token::BoldDelimiter]);
}

#[test]
fn lexer_all_delimiter_kinds() {
    assert_eq!(
        lex("a*b_c`d#e"),
        vec![
            Token::Text("a"),
            Token::BoldDelimiter,
            Token::Text("b"),
            Token::ItalicsDelimiter,
            Token::Text("c"),
            Token::MonospaceDelimiter,
            Token::Text("d"),
            Token::HighlightDelimiter,
            Token::Text("e"),
        ]
    );
}

#[test]
fn lexer_only_text() {
    assert_eq!(lex("plain text"), vec![Token::Text("plain text")]);
}

#[test]
fn lexer_single_delimiter_only() {
    assert_eq!(lex("#"), vec![Token::HighlightDelimiter]);
}

#[test]
fn lexer_non_ascii_text() {
    assert_eq!(
        lex("héllo_wörld"),
        vec![
            Token::Text("héllo"),
            Token::ItalicsDelimiter,
            Token::Text("wörld"),
        ]
    );
}

#[test]
fn lexer_tokens_reconstruct_input() {
    let input = "a*b__`code`_ #x# tail";
    let mut rebuilt = String::new();
    for token in lex(input) {
        match token {
            Token::Text(s) => rebuilt.push_str(s),
            Token::BoldDelimiter => rebuilt.push('*'),
            Token::ItalicsDelimiter => rebuilt.push('_'),
            Token::MonospaceDelimiter => rebuilt.push('`'),
            Token::HighlightDelimiter => rebuilt.push('#'),
        }
    }
    assert_eq!(rebuilt, input);
}

#[test]
fn lexer_no_adjacent_text_and_no_empty_text() {
    let input = "one*two_three``four# five";
    let tokens = lex(input);
    for pair in tokens.windows(2) {
        assert!(!(matches!(pair[0], Token::Text(_)) && matches!(pair[1], Token::Text(_))));
    }
    for token in &tokens {
        if let Token::Text(s) = token {
            assert!(!s.is_empty());
        }
    }
}
