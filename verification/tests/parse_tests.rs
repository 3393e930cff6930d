use markup_lex::{parse, Error};

#[test]
fn parse_yields_a_document() {
    assert!(parse("= Title\n\nSome _text_.").is_ok());
    assert!(parse("").is_ok());
}

#[test]
fn error_message() {
    assert_eq!(Error::InvalidDocument.message(), "invalid");
}
