use markup_lex::stream::utf8::{
    clear_top_n, int_to_char, process_cont_byte, push_cont_byte, CharStream, ErrorKind, MAX_VALUE,
};

fn decode(bytes: &[u8]) -> (Vec<char>, Option<ErrorKind>) {
    let mut stream = CharStream::new(bytes.to_vec());
    stream.decode_to_end()
}

#[test]
fn decodes_ascii() {
    let (chars, err) = decode(b"abc");
    assert_eq!(chars, vec!['a', 'b', 'c']);
    assert_eq!(err, None);
}

#[test]
fn empty_source_yields_nothing() {
    let (chars, err) = decode(b"");
    assert_eq!(chars, Vec::<char>::new());
    assert_eq!(err, None);
}

#[test]
fn round_trip_mixed_widths() {
    let text = "a\u{e9}\u{20ac}\u{1f600}";
    let (chars, err) = decode(text.as_bytes());
    assert_eq!(err, None);
    let rebuilt: String = chars.into_iter().collect();
    assert_eq!(rebuilt, text);
}

#[test]
fn boundary_one_and_two_bytes() {
    assert_eq!(decode(&[0x7F]), (vec!['\u{7F}'], None));
    assert_eq!(decode(&[0xC2, 0x80]), (vec!['\u{80}'], None));
}

#[test]
fn boundary_two_and_three_bytes() {
    assert_eq!(decode(&[0xDF, 0xBF]), (vec!['\u{7FF}'], None));
    assert_eq!(decode(&[0xE0, 0xA0, 0x80]), (vec!['\u{800}'], None));
}

#[test]
fn boundary_three_and_four_bytes() {
    assert_eq!(decode(&[0xEF, 0xBF, 0xBF]), (vec!['\u{FFFF}'], None));
    assert_eq!(decode(&[0xF0, 0x90, 0x80, 0x80]), (vec!['\u{10000}'], None));
}

#[test]
fn boundary_max_scalar_value() {
    assert_eq!(decode(&[0xF4, 0x8F, 0xBF, 0xBF]), (vec!['\u{10FFFF}'], None));
    // The 4-byte pattern for 0x110000, one past the maximum scalar value.
    assert_eq!(
        decode(&[0xF4, 0x90, 0x80, 0x80]),
        (vec![], Some(ErrorKind::CodepointTooLarge))
    );
}

#[test]
fn surrogates_rejected() {
    // 0xD800 and 0xDFFF, the ends of the surrogate range.
    assert_eq!(
        decode(&[0xED, 0xA0, 0x80]),
        (vec![], Some(ErrorKind::SurrogateCodepoint))
    );
    assert_eq!(
        decode(&[0xED, 0xBF, 0xBF]),
        (vec![], Some(ErrorKind::SurrogateCodepoint))
    );
}

#[test]
fn truncated_sequences_rejected() {
    assert_eq!(decode(&[0xC2]), (vec![], Some(ErrorKind::PrematureEnd)));
    assert_eq!(decode(&[0xE0, 0xA0]), (vec![], Some(ErrorKind::PrematureEnd)));
    assert_eq!(
        decode(&[0xF0, 0x90, 0x80]),
        (vec![], Some(ErrorKind::PrematureEnd))
    );
}

#[test]
fn invalid_lead_bytes_rejected() {
    assert_eq!(decode(&[0x80]), (vec![], Some(ErrorKind::InvalidLeadByte)));
    assert_eq!(decode(&[0xF8]), (vec![], Some(ErrorKind::InvalidLeadByte)));
    assert_eq!(decode(&[0xFF]), (vec![], Some(ErrorKind::InvalidLeadByte)));
}

#[test]
fn invalid_continuation_bytes_rejected() {
    assert_eq!(
        decode(&[0xC2, 0x41]),
        (vec![], Some(ErrorKind::InvalidContinuationByte))
    );
    assert_eq!(
        decode(&[0xE2, 0x82, 0xC0]),
        (vec![], Some(ErrorKind::InvalidContinuationByte))
    );
}

#[test]
fn overlong_encodings_rejected() {
    // Two-byte pattern for NUL and three-byte pattern for 0x7FF.
    assert_eq!(
        decode(&[0xC0, 0x80]),
        (vec![], Some(ErrorKind::OverlongEncoding))
    );
    assert_eq!(
        decode(&[0xE0, 0x9F, 0xBF]),
        (vec![], Some(ErrorKind::OverlongEncoding))
    );
}

#[test]
fn chars_before_error_are_kept() {
    let (chars, err) = decode(&[0x61, 0xC3, 0xA9, 0x80]);
    assert_eq!(chars, vec!['a', '\u{e9}']);
    assert_eq!(err, Some(ErrorKind::InvalidLeadByte));
}

#[test]
fn stream_stops_after_error() {
    let mut stream = CharStream::new(vec![0xFF, 0x61]);
    assert_eq!(stream.next(), Some(Err(ErrorKind::InvalidLeadByte)));
    assert_eq!(stream.next(), None);
    assert_eq!(stream.next(), None);
}

#[test]
fn stream_pulls_one_scalar_at_a_time() {
    let mut stream = CharStream::new("x\u{e9}".as_bytes().to_vec());
    assert_eq!(stream.next(), Some(Ok('x')));
    assert_eq!(stream.next(), Some(Ok('\u{e9}')));
    assert_eq!(stream.next(), None);
}

#[test]
fn int_to_char_converts_scalars() {
    assert_eq!(int_to_char(0x41), Ok('A'));
    assert_eq!(int_to_char(0x10FFFF), Ok('\u{10FFFF}'));
    assert_eq!(int_to_char(MAX_VALUE + 1), Err(ErrorKind::CodepointTooLarge));
    assert_eq!(int_to_char(0xD800), Err(ErrorKind::SurrogateCodepoint));
}

#[test]
fn bit_helpers() {
    assert_eq!(clear_top_n(0b1110_0010, 4), 0b0000_0010);
    assert_eq!(clear_top_n(0b1101_1111, 3), 0b0001_1111);
    assert_eq!(push_cont_byte(0x02, 0xA9), 0xA9 & 0x3F | (0x02 << 6));
}

#[test]
fn process_cont_byte_classifies() {
    assert_eq!(process_cont_byte(Some(0x80)), Ok(0x80));
    assert_eq!(process_cont_byte(Some(0xBF)), Ok(0xBF));
    assert_eq!(
        process_cont_byte(Some(0x41)),
        Err(ErrorKind::InvalidContinuationByte)
    );
    assert_eq!(process_cont_byte(None), Err(ErrorKind::PrematureEnd));
}
