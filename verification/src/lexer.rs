//! The markup tokenizer.
//!
//! [`lex`] splits a text buffer into plain-text spans and single-character
//! markup delimiters (`*`, `_`, `` ` ``, `#`). Text tokens borrow the input
//! buffer; no character is copied. Pairing and nesting of delimiters is left
//! to a downstream consumer.

use vstd::prelude::*;

verus! {

/// One lexical token: a non-empty span of plain text borrowed from the input,
/// or a single-character markup delimiter.
#[derive(Debug, Clone, Copy, PartialEq)]
pub enum Token<'a> {
    Text(&'a str),
    BoldDelimiter,
    ItalicsDelimiter,
    MonospaceDelimiter,
    HighlightDelimiter,
}

/// The mathematical shape of a [`Token`]: text is a character sequence
/// instead of a borrowed span.
pub enum SpecToken {
    Text(Seq<char>),
    BoldDelimiter,
    ItalicsDelimiter,
    MonospaceDelimiter,
    HighlightDelimiter,
}

impl<'a> View for Token<'a> {
    type V = SpecToken;

    open spec fn view(&self) -> SpecToken {
        match self {
            Token::Text(s) => SpecToken::Text(s@),
            Token::BoldDelimiter => SpecToken::BoldDelimiter,
            Token::ItalicsDelimiter => SpecToken::ItalicsDelimiter,
            Token::MonospaceDelimiter => SpecToken::MonospaceDelimiter,
            Token::HighlightDelimiter => SpecToken::HighlightDelimiter,
        }
    }
}

/// The views of a sequence of tokens, in order.
pub open spec fn token_views(tokens: Seq<Token>) -> Seq<SpecToken> {
    tokens.map_values(|t: Token| t@)
}

/// True of the four single-character markup delimiters.
pub open spec fn is_delimiter(c: char) -> bool {
    c == '*' || c == '_' || c == '`' || c == '#'
}

/// The delimiter token that a delimiter character stands for.
pub open spec fn delimiter_token(c: char) -> SpecToken
    recommends
        is_delimiter(c),
{
    if c == '*' {
        SpecToken::BoldDelimiter
    } else if c == '_' {
        SpecToken::ItalicsDelimiter
    } else if c == '`' {
        SpecToken::MonospaceDelimiter
    } else {
        SpecToken::HighlightDelimiter
    }
}

/// The tokens of `s[anchor..]`, scanning from position `i`, where
/// `s[anchor..i]` is the pending run of plain text not yet emitted.
pub open spec fn lex_from(s: Seq<char>, anchor: int, i: int) -> Seq<SpecToken>
    recommends
        0 <= anchor <= i <= s.len(),
    decreases s.len() - i,
{
    if i < 0 || i >= s.len() {
        if anchor < s.len() {
            seq![SpecToken::Text(s.subrange(anchor, s.len() as int))]
        } else {
            seq![]
        }
    } else if is_delimiter(s[i]) {
        let pending = if anchor < i {
            seq![SpecToken::Text(s.subrange(anchor, i))]
        } else {
            seq![]
        };
        pending + seq![delimiter_token(s[i])] + lex_from(s, i + 1, i + 1)
    } else {
        lex_from(s, anchor, i + 1)
    }
}

/// The token sequence of a whole text buffer.
pub open spec fn lex_spec(s: Seq<char>) -> Seq<SpecToken> {
    lex_from(s, 0, 0)
}

/// Split a text buffer into text spans and markup delimiters.
///
/// Every character of the input lands in exactly one token, in order: a
/// delimiter character becomes its delimiter token, and each maximal
/// non-empty run of other characters becomes one `Text` token borrowing that
/// span of the input.
pub fn lex<'a>(raw: &'a str) -> (tokens: Vec<Token<'a>>)
    ensures
        token_views(tokens@) == lex_spec(raw@),
{
    let len = raw.unicode_len();
    let mut tokens: Vec<Token<'a>> = Vec::new();
    let mut anchor: usize = 0;
    let mut i: usize = 0;
    while i < len
        invariant
            len == raw@.len(),
            anchor <= i <= len,
            token_views(tokens@) + lex_from(raw@, anchor as int, i as int) == lex_spec(raw@),
        decreases len - i,
    {
        let ch = raw.get_char(i);
        if ch == '*' || ch == '_' || ch == '`' || ch == '#' {
            if anchor != i {
                let span = raw.substring_char(anchor, i);
                tokens.push(Token::Text(span));
            }
            let delim = if ch == '*' {
                Token::BoldDelimiter
            } else if ch == '_' {
                Token::ItalicsDelimiter
            } else if ch == '`' {
                Token::MonospaceDelimiter
            } else {
                Token::HighlightDelimiter
            };
            tokens.push(delim);
            anchor = i + 1;
        }
        i = i + 1;
        proof {
            assert(token_views(tokens@) + lex_from(raw@, anchor as int, i as int)
                == lex_spec(raw@));
        }
    }
    if anchor != len {
        let span = raw.substring_char(anchor, len);
        tokens.push(Token::Text(span));
    }
    tokens
}

/// The source text that one token stands for: a text token its span, a
/// delimiter token its single source character.
pub open spec fn render_token(t: SpecToken) -> Seq<char> {
    match t {
        SpecToken::Text(s) => s,
        SpecToken::BoldDelimiter => seq!['*'],
        SpecToken::ItalicsDelimiter => seq!['_'],
        SpecToken::MonospaceDelimiter => seq!['`'],
        SpecToken::HighlightDelimiter => seq!['#'],
    }
}

/// The source text of a token sequence: each token rendered, in order.
pub open spec fn render_tokens(ts: Seq<SpecToken>) -> Seq<char>
    decreases ts.len(),
{
    if ts.len() == 0 {
        seq![]
    } else {
        render_token(ts[0]) + render_tokens(ts.drop_first())
    }
}

/// True when no two adjacent tokens are both text tokens.
pub open spec fn no_adjacent_text(ts: Seq<SpecToken>) -> bool
    decreases ts.len(),
{
    ts.len() < 2 || (!(ts[0] is Text && ts[1] is Text) && no_adjacent_text(ts.drop_first()))
}

/// True when every text token holds at least one character.
pub open spec fn all_text_nonempty(ts: Seq<SpecToken>) -> bool
    decreases ts.len(),
{
    ts.len() == 0 || ((ts[0] matches SpecToken::Text(x) ==> x.len() > 0) && all_text_nonempty(
        ts.drop_first(),
    ))
}

proof fn lemma_render_singleton(t: SpecToken)
    ensures
        render_tokens(seq![t]) == render_token(t),
{
    assert(seq![t].drop_first() =~= Seq::<SpecToken>::empty());
    assert(render_token(t) + render_tokens(seq![t].drop_first()) =~= render_token(t));
}

proof fn lemma_render_concat(a: Seq<SpecToken>, b: Seq<SpecToken>)
    ensures
        render_tokens(a + b) == render_tokens(a) + render_tokens(b),
    decreases a.len(),
{
    if a.len() == 0 {
        assert(a + b =~= b);
        assert(render_tokens(a) + render_tokens(b) =~= render_tokens(b));
    } else {
        assert((a + b).drop_first() =~= a.drop_first() + b);
        lemma_render_concat(a.drop_first(), b);
        assert((a + b).len() != 0 && (a + b)[0] == a[0]);
        assert(render_token(a[0]) + (render_tokens(a.drop_first()) + render_tokens(b)) =~= (
        render_token(a[0]) + render_tokens(a.drop_first())) + render_tokens(b));
    }
}

proof fn lemma_lex_from_renders(s: Seq<char>, anchor: int, i: int)
    requires
        0 <= anchor <= i <= s.len(),
    ensures
        render_tokens(lex_from(s, anchor, i)) == s.subrange(anchor, s.len() as int),
    decreases s.len() - i,
{
    if i >= s.len() {
        if anchor < s.len() {
            lemma_render_singleton(SpecToken::Text(s.subrange(anchor, s.len() as int)));
        } else {
            assert(s.subrange(anchor, s.len() as int) =~= Seq::<char>::empty());
        }
    } else if is_delimiter(s[i]) {
        let pending = if anchor < i {
            seq![SpecToken::Text(s.subrange(anchor, i))]
        } else {
            Seq::<SpecToken>::empty()
        };
        let d = delimiter_token(s[i]);
        let rest = lex_from(s, i + 1, i + 1);
        lemma_lex_from_renders(s, i + 1, i + 1);
        lemma_render_singleton(d);
        lemma_render_concat(pending, seq![d]);
        lemma_render_concat(pending + seq![d], rest);
        if anchor < i {
            lemma_render_singleton(SpecToken::Text(s.subrange(anchor, i)));
            assert(s.subrange(anchor, i) + seq![s[i]] + s.subrange(i + 1, s.len() as int) =~= s
                .subrange(anchor, s.len() as int));
        } else {
            assert(Seq::<char>::empty() + seq![s[i]] + s.subrange(i + 1, s.len() as int) =~= s
                .subrange(anchor, s.len() as int));
        }
    } else {
        lemma_lex_from_renders(s, anchor, i + 1);
    }
}

/// Law: the tokens of a buffer, rendered in order — each delimiter as its
/// one source character, each text token as its span — reconstruct the
/// buffer exactly, with no gaps and no overlaps.
pub proof fn lemma_lex_reconstructs(s: Seq<char>)
    ensures
        render_tokens(lex_spec(s)) == s,
{
    lemma_lex_from_renders(s, 0, 0);
    assert(s.subrange(0, s.len() as int) =~= s);
}

proof fn lemma_cons_keeps_no_adjacent(t: SpecToken, ts: Seq<SpecToken>)
    requires
        no_adjacent_text(ts),
        ts.len() > 0 ==> !(t is Text && ts[0] is Text),
    ensures
        no_adjacent_text(seq![t] + ts),
{
    assert((seq![t] + ts).drop_first() =~= ts);
}

proof fn lemma_lex_from_no_adjacent(s: Seq<char>, anchor: int, i: int)
    requires
        0 <= anchor <= i <= s.len(),
    ensures
        no_adjacent_text(lex_from(s, anchor, i)),
    decreases s.len() - i,
{
    if i >= s.len() {
    } else if is_delimiter(s[i]) {
        let d = delimiter_token(s[i]);
        let rest = lex_from(s, i + 1, i + 1);
        lemma_lex_from_no_adjacent(s, i + 1, i + 1);
        lemma_cons_keeps_no_adjacent(d, rest);
        if anchor < i {
            lemma_cons_keeps_no_adjacent(SpecToken::Text(s.subrange(anchor, i)), seq![d] + rest);
            assert(seq![SpecToken::Text(s.subrange(anchor, i))] + (seq![d] + rest) =~= lex_from(
                s,
                anchor,
                i,
            ));
        } else {
            assert(seq![d] + rest =~= lex_from(s, anchor, i));
        }
    } else {
        lemma_lex_from_no_adjacent(s, anchor, i + 1);
    }
}

/// Law: the lexer never yields two text tokens in a row — a delimiter
/// always separates consecutive text runs.
pub proof fn lemma_lex_no_adjacent_text(s: Seq<char>)
    ensures
        no_adjacent_text(lex_spec(s)),
{
    lemma_lex_from_no_adjacent(s, 0, 0);
}

proof fn lemma_cons_keeps_text_nonempty(t: SpecToken, ts: Seq<SpecToken>)
    requires
        all_text_nonempty(ts),
        t matches SpecToken::Text(x) ==> x.len() > 0,
    ensures
        all_text_nonempty(seq![t] + ts),
{
    assert((seq![t] + ts).drop_first() =~= ts);
}

proof fn lemma_lex_from_text_nonempty(s: Seq<char>, anchor: int, i: int)
    requires
        0 <= anchor <= i <= s.len(),
    ensures
        all_text_nonempty(lex_from(s, anchor, i)),
    decreases s.len() - i,
{
    if i >= s.len() {
        if anchor < s.len() {
            lemma_cons_keeps_text_nonempty(
                SpecToken::Text(s.subrange(anchor, s.len() as int)),
                Seq::<SpecToken>::empty(),
            );
            assert(seq![SpecToken::Text(s.subrange(anchor, s.len() as int))]
                + Seq::<SpecToken>::empty() =~= lex_from(s, anchor, i));
        }
    } else if is_delimiter(s[i]) {
        let d = delimiter_token(s[i]);
        let rest = lex_from(s, i + 1, i + 1);
        lemma_lex_from_text_nonempty(s, i + 1, i + 1);
        lemma_cons_keeps_text_nonempty(d, rest);
        if anchor < i {
            lemma_cons_keeps_text_nonempty(SpecToken::Text(s.subrange(anchor, i)), seq![d] + rest);
            assert(seq![SpecToken::Text(s.subrange(anchor, i))] + (seq![d] + rest) =~= lex_from(
                s,
                anchor,
                i,
            ));
        } else {
            assert(seq![d] + rest =~= lex_from(s, anchor, i));
        }
    } else {
        lemma_lex_from_text_nonempty(s, anchor, i + 1);
    }
}

/// Law: every text token the lexer yields holds at least one character —
/// the lexer never produces an empty text span.
pub proof fn lemma_lex_text_nonempty(s: Seq<char>)
    ensures
        all_text_nonempty(lex_spec(s)),
{
    lemma_lex_from_text_nonempty(s, 0, 0);
}

} // verus!
