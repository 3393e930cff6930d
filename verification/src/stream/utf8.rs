//! A streaming UTF-8 decoder.
//!
//! [`CharStream`] pulls bytes from an in-memory source and yields one decoded
//! Unicode scalar value at a time, or a single [`ErrorKind`] at the point
//! decoding fails, after which the stream produces nothing further.
//!
//! The decoder is strict: besides malformed lead and continuation bytes it
//! rejects codepoints above the maximum scalar value, surrogate codepoints,
//! and overlong encodings, so that a successful decode accepts exactly the
//! well-formed UTF-8 encodings.

use vstd::prelude::*;
use vstd::utf8::*;

verus! {

/// The ways a UTF-8 decode can fail, reported in source order at the first
/// offending byte.
#[derive(Debug, Clone, Copy, PartialEq, Eq, Structural)]
pub enum ErrorKind {
    /// The first byte of a sequence is not a valid lead byte.
    InvalidLeadByte,
    /// A byte read where a continuation byte was expected is not one.
    InvalidContinuationByte,
    /// The source ended before all continuation bytes of a sequence arrived.
    PrematureEnd,
    /// The accumulated codepoint exceeds the maximum Unicode scalar value.
    CodepointTooLarge,
    /// The accumulated codepoint falls in the surrogate range.
    SurrogateCodepoint,
    /// The sequence encodes a value that a shorter sequence could represent.
    OverlongEncoding,
}

/// The largest Unicode scalar value.
pub const MAX_VALUE: u32 = 0x0010FFFF;

/// The number of bytes in the sequence that a lead byte announces, or 0 when
/// the byte is not a valid lead byte.
pub open spec fn lead_byte_width(b: u8) -> int {
    if is_leading_byte_width_1(b) {
        1
    } else if is_leading_byte_width_2(b) {
        2
    } else if is_leading_byte_width_3(b) {
        3
    } else if is_leading_byte_width_4(b) {
        4
    } else {
        0
    }
}

/// The first problem among the continuation bytes `bytes[j..width]`:
/// a missing byte is reported as a premature end of the source, a byte
/// outside the continuation range as invalid.
pub open spec fn continuation_error(bytes: Seq<u8>, j: int, width: int) -> Option<ErrorKind>
    decreases width - j,
{
    if j >= width {
        None
    } else if j >= bytes.len() {
        Some(ErrorKind::PrematureEnd)
    } else if !is_continuation_byte(bytes[j]) {
        Some(ErrorKind::InvalidContinuationByte)
    } else {
        continuation_error(bytes, j + 1, width)
    }
}

/// The problem with an accumulated codepoint of a sequence of the given
/// width, if any: above the maximum scalar value, a surrogate, or an
/// overlong encoding, checked in that order.
pub open spec fn scalar_value_error(v: u32, width: int) -> Option<ErrorKind> {
    if v > MAX_VALUE {
        Some(ErrorKind::CodepointTooLarge)
    } else if 0xD800 <= v <= 0xDFFF {
        Some(ErrorKind::SurrogateCodepoint)
    } else if width == 2 && v < 0x80 {
        Some(ErrorKind::OverlongEncoding)
    } else if width == 3 && v < 0x800 {
        Some(ErrorKind::OverlongEncoding)
    } else if width == 4 && v < 0x10000 {
        Some(ErrorKind::OverlongEncoding)
    } else {
        None
    }
}

/// The error reported at the head of `bytes` when it does not start with a
/// well-formed encoding of a Unicode scalar value.
pub open spec fn first_decode_error(bytes: Seq<u8>) -> ErrorKind
    recommends
        bytes.len() > 0,
        !valid_first_scalar(bytes),
{
    let w = lead_byte_width(bytes[0]);
    if w == 0 {
        ErrorKind::InvalidLeadByte
    } else {
        match continuation_error(bytes, 1, w) {
            Some(k) => k,
            None => match scalar_value_error(decode_first_codepoint(bytes), w) {
                Some(k) => k,
                None => ErrorKind::InvalidLeadByte,
            },
        }
    }
}

/// Everything a fresh stream over `bytes` yields, in order: the characters
/// decoded before the source ends or decoding fails, and the error, if any,
/// that ends the stream.
pub open spec fn stream_output(bytes: Seq<u8>) -> (Seq<char>, Option<ErrorKind>)
    decreases bytes.len(),
{
    if bytes.len() == 0 {
        (seq![], None)
    } else if valid_first_scalar(bytes) {
        let rest = stream_output(pop_first_scalar(bytes));
        (seq![decode_first_scalar(bytes) as char] + rest.0, rest.1)
    } else {
        (seq![], Some(first_decode_error(bytes)))
    }
}

/// Clear the top `n` bits of a byte, keeping the low `8 - n` value bits.
#[inline]
pub fn clear_top_n(b: u8, n: u32) -> (r: u8)
    requires
        n < 8,
    ensures
        r == b & (0xffu8 >> n),
{
    b & (u8::MAX >> n)
}

/// Fold the low 6 bits of a continuation byte into an accumulating codepoint.
#[inline]
pub fn push_cont_byte(ch: u32, b: u8) -> (r: u32)
    ensures
        r == (ch << 6u32) | ((b & 0x3fu8) as u32),
{
    proof {
        assert(0xffu8 >> 2u32 == 0x3fu8) by (bit_vector);
    }
    (ch << 6) | (clear_top_n(b, 2) as u32)
}

/// Relies on `char::from_u32` of std: the conversion succeeds exactly when
/// the value is at most the maximum scalar value and not a surrogate, and
/// the resulting character casts back to the same value.
pub assume_specification[ char::from_u32 ](v: u32) -> (r: Option<char>)
    ensures
        r is Some <==> is_scalar(v),
        r matches Some(c) ==> c as u32 == v,
;

/// Turn an accumulated codepoint into a character, rejecting values above
/// the maximum scalar value and values in the surrogate range.
pub fn int_to_char(i: u32) -> (r: Result<char, ErrorKind>)
    ensures
        i > MAX_VALUE ==> r == Err::<char, ErrorKind>(ErrorKind::CodepointTooLarge),
        0xD800 <= i <= 0xDFFF ==> r == Err::<char, ErrorKind>(ErrorKind::SurrogateCodepoint),
        i <= MAX_VALUE && !(0xD800 <= i <= 0xDFFF) ==> (r matches Ok(c) && c as u32 == i && c
            == i as char),
{
    if i > MAX_VALUE {
        Err(ErrorKind::CodepointTooLarge)
    } else if 0xD800 <= i && i <= 0xDFFF {
        Err(ErrorKind::SurrogateCodepoint)
    } else {
        let c = char::from_u32(i).unwrap();
        proof {
            char_u32_cast(c, i);
        }
        Ok(c)
    }
}

/// Check a byte pulled from the source as a continuation byte: a missing
/// byte means the source ended too early, a byte outside `0x80..=0xBF` is
/// invalid, and a valid byte passes through.
pub fn process_cont_byte(cont_byte: Option<u8>) -> (r: Result<u8, ErrorKind>)
    ensures
        cont_byte is None ==> r == Err::<u8, ErrorKind>(ErrorKind::PrematureEnd),
        cont_byte matches Some(b) ==> r == (if is_continuation_byte(b) {
            Ok::<u8, ErrorKind>(b)
        } else {
            Err::<u8, ErrorKind>(ErrorKind::InvalidContinuationByte)
        }),
{
    match cont_byte {
        Some(b) => if 0x80 <= b && b <= 0xBF {
            Ok(b)
        } else {
            Err(ErrorKind::InvalidContinuationByte)
        },
        None => Err(ErrorKind::PrematureEnd),
    }
}

/// A pull-based stream of decoded characters over an in-memory byte source.
///
/// Each call to [`CharStream::next`] decodes exactly one scalar value. The
/// first decode failure is yielded once, and the stream then ends.
pub struct CharStream {
    bytes: Vec<u8>,
    pos: usize,
    failed: bool,
}

impl CharStream {
    /// The bytes of the source not yet consumed.
    pub closed spec fn remaining(&self) -> Seq<u8> {
        self.bytes@.subrange(self.pos as int, self.bytes@.len() as int)
    }

    /// True once the stream has yielded a decode error.
    pub closed spec fn has_failed(&self) -> bool {
        self.failed
    }

    /// Well-formed: the cursor lies within the source.
    pub closed spec fn wf(&self) -> bool {
        self.pos <= self.bytes@.len()
    }

    /// A fresh stream over an in-memory byte source.
    pub fn new(bytes: Vec<u8>) -> (s: CharStream)
        ensures
            s.wf(),
            !s.has_failed(),
            s.remaining() == bytes@,
    {
        let s = CharStream { bytes, pos: 0, failed: false };
        proof {
            assert(s.remaining() =~= s.bytes@);
        }
        s
    }

    /// Pull one raw byte from the source, or none when it is exhausted.
    fn next_byte(&mut self) -> (r: Option<u8>)
        requires
            old(self).wf(),
        ensures
            final(self).wf(),
            final(self).has_failed() == old(self).has_failed(),
            old(self).remaining().len() == 0 ==> r is None && *final(self) == *old(self),
            old(self).remaining().len() > 0 ==> r == Some(old(self).remaining()[0])
                && final(self).remaining() == old(self).remaining().drop_first(),
    {
        if self.pos < self.bytes.len() {
            let b = self.bytes[self.pos];
            self.pos = self.pos + 1;
            proof {
                assert(self.remaining() =~= old(self).remaining().drop_first());
            }
            Some(b)
        } else {
            None
        }
    }

    /// Pull the continuation byte at position `j` of the sequence whose
    /// bytes begin at `rem`, checking it with [`process_cont_byte`].
    fn read_cont(&mut self, Ghost(rem): Ghost<Seq<u8>>, Ghost(j): Ghost<int>) -> (r: Result<
        u8,
        ErrorKind,
    >)
        requires
            old(self).wf(),
            0 <= j <= rem.len(),
            old(self).remaining() == rem.subrange(j, rem.len() as int),
        ensures
            final(self).wf(),
            final(self).has_failed() == old(self).has_failed(),
            rem.len() == j ==> r == Err::<u8, ErrorKind>(ErrorKind::PrematureEnd),
            rem.len() > j && !is_continuation_byte(rem[j]) ==> r == Err::<u8, ErrorKind>(
                ErrorKind::InvalidContinuationByte,
            ),
            rem.len() > j && is_continuation_byte(rem[j]) ==> r == Ok::<u8, ErrorKind>(rem[j])
                && final(self).remaining() == rem.subrange(j + 1, rem.len() as int),
    {
        let ghost pre = self.remaining();
        let b_opt = self.next_byte();
        proof {
            if pre.len() > 0 {
                assert(pre[0] == rem[j]);
                assert(pre.drop_first() =~= rem.subrange(j + 1, rem.len() as int));
            }
        }
        process_cont_byte(b_opt)
    }

    /// Record a decode failure; the stream produces nothing further.
    fn fail(&mut self, kind: ErrorKind) -> (r: Option<Result<char, ErrorKind>>)
        ensures
            final(self).wf() == old(self).wf(),
            final(self).has_failed(),
            final(self).remaining() == old(self).remaining(),
            r == Some(Err::<char, ErrorKind>(kind)),
    {
        self.failed = true;
        Some(Err(kind))
    }

    /// Decode the next scalar value from the source.
    ///
    /// Yields nothing once the source is exhausted or after a failure has
    /// been reported; otherwise yields the first scalar of the remaining
    /// bytes, or the error describing why those bytes are not a well-formed
    /// scalar encoding.
    pub fn next(&mut self) -> (r: Option<Result<char, ErrorKind>>)
        requires
            old(self).wf(),
        ensures
            final(self).wf(),
            old(self).has_failed() ==> r is None && *final(self) == *old(self),
            !old(self).has_failed() && old(self).remaining().len() == 0 ==> r is None
                && *final(self) == *old(self),
            !old(self).has_failed() && old(self).remaining().len() > 0 && valid_first_scalar(
                old(self).remaining(),
            ) ==> {
                &&& r == Some(
                    Ok::<char, ErrorKind>(decode_first_scalar(old(self).remaining()) as char),
                )
                &&& !final(self).has_failed()
                &&& final(self).remaining() == pop_first_scalar(old(self).remaining())
            },
            !old(self).has_failed() && old(self).remaining().len() > 0 && !valid_first_scalar(
                old(self).remaining(),
            ) ==> {
                &&& r == Some(Err::<char, ErrorKind>(first_decode_error(old(self).remaining())))
                &&& final(self).has_failed()
            },
    {
        if self.failed {
            return None;
        }
        let ghost rem = self.remaining();
        let b1 = match self.next_byte() {
            Some(b) => b,
            None => {
                return None;
            },
        };
        proof {
            assert(self.remaining() =~= rem.subrange(1, rem.len() as int));
        }
        if b1 <= 0x7F {
            let c = match int_to_char(b1 as u32) {
                Ok(c) => c,
                Err(k) => {
                    proof {
                        assert(false);
                    }
                    return self.fail(k);
                },
            };
            proof {
                assert(b1 & 0x7f == b1) by (bit_vector)
                    requires
                        b1 <= 0x7f,
                ;
                assert(decode_first_codepoint(rem) == b1 as u32);
                assert(valid_first_scalar(rem));
                assert(length_of_first_scalar(rem) == 1);
                assert(self.remaining() =~= pop_first_scalar(rem));
            }
            Some(Ok(c))
        } else if 0xC0 <= b1 && b1 <= 0xDF {
            let b2 = match self.read_cont(Ghost(rem), Ghost(1)) {
                Ok(b) => b,
                Err(k) => {
                    proof {
                        assert(continuation_error(rem, 1, 2) == Some(k));
                        assert(!valid_first_scalar(rem));
                    }
                    return self.fail(k);
                },
            };
            let mut ch: u32 = clear_top_n(b1, 3) as u32;
            ch = push_cont_byte(ch, b2);
            proof {
                assert(ch == codepoint_width_2(b1, b2) && ch <= 0x7ff) by (bit_vector)
                    requires
                        ch == (((b1 & (0xffu8 >> 3u32)) as u32) << 6u32) | ((b2 & 0x3fu8) as u32),
                ;
                assert(decode_first_codepoint(rem) == ch);
                assert(continuation_error(rem, 2, 2) is None);
                assert(continuation_error(rem, 1, 2) is None);
            }
            self.finish_scalar(ch, 2, Ghost(rem))
        } else if 0xE0 <= b1 && b1 <= 0xEF {
            let b2 = match self.read_cont(Ghost(rem), Ghost(1)) {
                Ok(b) => b,
                Err(k) => {
                    proof {
                        assert(continuation_error(rem, 1, 3) == Some(k));
                        assert(!valid_first_scalar(rem));
                    }
                    return self.fail(k);
                },
            };
            let b3 = match self.read_cont(Ghost(rem), Ghost(2)) {
                Ok(b) => b,
                Err(k) => {
                    proof {
                        assert(continuation_error(rem, 2, 3) == Some(k));
                        assert(continuation_error(rem, 1, 3) == Some(k));
                        assert(!valid_first_scalar(rem));
                    }
                    return self.fail(k);
                },
            };
            let mut ch: u32 = clear_top_n(b1, 4) as u32;
            ch = push_cont_byte(ch, b2);
            ch = push_cont_byte(ch, b3);
            proof {
                assert(ch == codepoint_width_3(b1, b2, b3) && ch <= 0xffff) by (bit_vector)
                    requires
                        ch == ((((((b1 & (0xffu8 >> 4u32)) as u32) << 6u32) | ((b2
                            & 0x3fu8) as u32)) << 6u32) | ((b3 & 0x3fu8) as u32)),
                ;
                assert(decode_first_codepoint(rem) == ch);
                assert(continuation_error(rem, 3, 3) is None);
                assert(continuation_error(rem, 2, 3) is None);
                assert(continuation_error(rem, 1, 3) is None);
            }
            self.finish_scalar(ch, 3, Ghost(rem))
        } else if 0xF0 <= b1 && b1 <= 0xF7 {
            let b2 = match self.read_cont(Ghost(rem), Ghost(1)) {
                Ok(b) => b,
                Err(k) => {
                    proof {
                        assert(continuation_error(rem, 1, 4) == Some(k));
                        assert(!valid_first_scalar(rem));
                    }
                    return self.fail(k);
                },
            };
            let b3 = match self.read_cont(Ghost(rem), Ghost(2)) {
                Ok(b) => b,
                Err(k) => {
                    proof {
                        assert(continuation_error(rem, 2, 4) == Some(k));
                        assert(continuation_error(rem, 1, 4) == Some(k));
                        assert(!valid_first_scalar(rem));
                    }
                    return self.fail(k);
                },
            };
            let b4 = match self.read_cont(Ghost(rem), Ghost(3)) {
                Ok(b) => b,
                Err(k) => {
                    proof {
                        assert(continuation_error(rem, 3, 4) == Some(k));
                        assert(continuation_error(rem, 2, 4) == Some(k));
                        assert(continuation_error(rem, 1, 4) == Some(k));
                        assert(!valid_first_scalar(rem));
                    }
                    return self.fail(k);
                },
            };
            let mut ch: u32 = clear_top_n(b1, 5) as u32;
            ch = push_cont_byte(ch, b2);
            ch = push_cont_byte(ch, b3);
            ch = push_cont_byte(ch, b4);
            proof {
                assert(ch == codepoint_width_4(b1, b2, b3, b4) && ch <= 0x1fffff) by (bit_vector)
                    requires
                        ch == ((((((((b1 & (0xffu8 >> 5u32)) as u32) << 6u32) | ((b2
                            & 0x3fu8) as u32)) << 6u32) | ((b3 & 0x3fu8) as u32)) << 6u32) | ((b4
                            & 0x3fu8) as u32)),
                ;
                assert(decode_first_codepoint(rem) == ch);
                assert(continuation_error(rem, 4, 4) is None);
                assert(continuation_error(rem, 3, 4) is None);
                assert(continuation_error(rem, 2, 4) is None);
                assert(continuation_error(rem, 1, 4) is None);
            }
            self.finish_scalar(ch, 4, Ghost(rem))
        } else {
            proof {
                assert(lead_byte_width(rem[0]) == 0);
                assert(!valid_first_scalar(rem));
            }
            self.fail(ErrorKind::InvalidLeadByte)
        }
    }

    /// Decode until the source is exhausted or a failure is reported,
    /// collecting the decoded characters in order together with the error,
    /// if any, that ended the stream.
    pub fn decode_to_end(&mut self) -> (r: (Vec<char>, Option<ErrorKind>))
        requires
            old(self).wf(),
            !old(self).has_failed(),
        ensures
            final(self).wf(),
            r.0@ == stream_output(old(self).remaining()).0,
            r.1 == stream_output(old(self).remaining()).1,
    {
        let ghost orig = self.remaining();
        let mut chars: Vec<char> = Vec::new();
        loop
            invariant
                self.wf(),
                !self.has_failed(),
                orig == old(self).remaining(),
                chars@ + stream_output(self.remaining()).0 == stream_output(orig).0,
                stream_output(self.remaining()).1 == stream_output(orig).1,
            decreases self.remaining().len(),
        {
            let ghost rem = self.remaining();
            match self.next() {
                None => {
                    proof {
                        assert(chars@ + stream_output(rem).0 =~= chars@);
                    }
                    return (chars, None);
                },
                Some(Ok(c)) => {
                    proof {
                        let rest = stream_output(pop_first_scalar(rem));
                        assert((chars@ + seq![c]) + rest.0 =~= chars@ + (seq![c] + rest.0));
                    }
                    chars.push(c);
                },
                Some(Err(k)) => {
                    proof {
                        assert(chars@ + stream_output(rem).0 =~= chars@);
                    }
                    return (chars, Some(k));
                },
            }
        }
    }

    /// Validate an accumulated codepoint of a sequence of the given width
    /// and yield the character or the error.
    fn finish_scalar(&mut self, ch: u32, width: usize, Ghost(rem): Ghost<Seq<u8>>) -> (r: Option<
        Result<char, ErrorKind>,
    >)
        requires
            old(self).wf(),
            2 <= width <= 4,
            rem.len() >= width,
            lead_byte_width(rem[0]) == width,
            continuation_error(rem, 1, width as int) is None,
            decode_first_codepoint(rem) == ch,
            width == 2 ==> ch <= 0x7ff,
            width == 3 ==> ch <= 0xffff,
            width == 4 ==> ch <= 0x1fffff,
            old(self).remaining() == rem.subrange(width as int, rem.len() as int),
            !old(self).has_failed(),
        ensures
            final(self).wf(),
            valid_first_scalar(rem) ==> {
                &&& r == Some(Ok::<char, ErrorKind>(decode_first_scalar(rem) as char))
                &&& !final(self).has_failed()
                &&& final(self).remaining() == pop_first_scalar(rem)
            },
            !valid_first_scalar(rem) ==> {
                &&& r == Some(Err::<char, ErrorKind>(first_decode_error(rem)))
                &&& final(self).has_failed()
            },
    {
        proof {
            assert(length_of_first_codepoint(rem) == width);
            assert(valid_leading_and_continuation_bytes_first_codepoint(rem)) by {
                assert(is_continuation_byte(rem[1]) && continuation_error(
                    rem,
                    2,
                    width as int,
                ) is None);
                if width >= 3 {
                    assert(is_continuation_byte(rem[2]) && continuation_error(
                        rem,
                        3,
                        width as int,
                    ) is None);
                }
                if width == 4 {
                    assert(is_continuation_byte(rem[3]));
                }
            }
        }
        match int_to_char(ch) {
            Err(k) => {
                proof {
                    assert(scalar_value_error(ch, width as int) == Some(k));
                    assert(!valid_first_scalar(rem));
                    assert(first_decode_error(rem) == k);
                }
                self.fail(k)
            },
            Ok(c) => {
                let overlong = if width == 2 {
                    ch < 0x80
                } else if width == 3 {
                    ch < 0x800
                } else {
                    ch < 0x10000
                };
                if overlong {
                    proof {
                        assert(scalar_value_error(ch, width as int) == Some(
                            ErrorKind::OverlongEncoding,
                        ));
                        assert(!valid_first_scalar(rem));
                        assert(first_decode_error(rem) == ErrorKind::OverlongEncoding);
                    }
                    self.fail(ErrorKind::OverlongEncoding)
                } else {
                    proof {
                        assert(not_overlong_encoding(ch, width as int));
                        assert(valid_first_scalar(rem));
                        assert(self.remaining() =~= pop_first_scalar(rem));
                    }
                    Some(Ok(c))
                }
            },
        }
    }
}

/// Law: decoding is a left inverse of UTF-8 encoding. A stream over the
/// encoding of any character sequence yields exactly that sequence, and
/// no error.
pub proof fn lemma_round_trip(chars: Seq<char>)
    ensures
        stream_output(encode_utf8(chars)) == (chars, None::<ErrorKind>),
    decreases chars.len(),
{
    let bytes = encode_utf8(chars);
    if chars.len() == 0 {
        assert(stream_output(bytes).0 =~= chars);
    } else {
        encode_utf8_first_scalar(chars);
        char_u32_cast(chars[0], decode_first_scalar(bytes));
        assert(pop_first_scalar(bytes) =~= encode_utf8(chars.drop_first()));
        lemma_round_trip(chars.drop_first());
        assert(stream_output(bytes).0 =~= chars);
    }
}

/// Law: a byte sequence whose lead and continuation bytes are well formed
/// but whose codepoint falls in the surrogate range is rejected with the
/// surrogate error kind.
pub proof fn lemma_surrogate_rejected(bytes: Seq<u8>)
    requires
        bytes.len() > 0,
        valid_leading_and_continuation_bytes_first_codepoint(bytes),
        0xD800 <= decode_first_codepoint(bytes) <= 0xDFFF,
    ensures
        !valid_first_scalar(bytes),
        first_decode_error(bytes) == ErrorKind::SurrogateCodepoint,
        stream_output(bytes).1 == Some(ErrorKind::SurrogateCodepoint),
{
    let b1 = bytes[0];
    let v = decode_first_codepoint(bytes);
    assert(lead_byte_width(b1) != 1) by {
        if is_leading_byte_width_1(b1) {
            assert(b1 & 0x7f <= 0x7f) by (bit_vector);
        }
    }
    let w = lead_byte_width(b1);
    assert(continuation_error(bytes, 1, w) is None) by {
        if w == 2 {
            assert(continuation_error(bytes, 2, 2) is None);
        } else if w == 3 {
            assert(continuation_error(bytes, 3, 3) is None);
            assert(continuation_error(bytes, 2, 3) is None);
        } else {
            assert(continuation_error(bytes, 4, 4) is None);
            assert(continuation_error(bytes, 3, 4) is None);
            assert(continuation_error(bytes, 2, 4) is None);
        }
    }
    assert(scalar_value_error(v, w) == Some(ErrorKind::SurrogateCodepoint));
}

/// Law: a lead byte announcing a 2-, 3- or 4-byte sequence followed
/// immediately by the end of the source is rejected as a premature end of
/// the stream.
pub proof fn lemma_truncated_sequence(bytes: Seq<u8>)
    requires
        bytes.len() == 1,
        is_leading_byte_width_2(bytes[0]) || is_leading_byte_width_3(bytes[0])
            || is_leading_byte_width_4(bytes[0]),
    ensures
        !valid_first_scalar(bytes),
        first_decode_error(bytes) == ErrorKind::PrematureEnd,
        stream_output(bytes).1 == Some(ErrorKind::PrematureEnd),
{
    let w = lead_byte_width(bytes[0]);
    assert(continuation_error(bytes, 1, w) == Some(ErrorKind::PrematureEnd));
}

} // verus!
