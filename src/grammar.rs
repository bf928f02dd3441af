//! The lexical grammar as spec functions over the input bytes.
use vstd::prelude::*;
use vstd::utf8::{decode_utf8, valid_utf8};

use crate::token::{LexErrorView, TokenView};

verus! {

pub const QUOTE: u8 = 0x22;
pub const SLASH: u8 = 0x2f;
pub const UNDERSCORE: u8 = 0x5f;
pub const NEWLINE: u8 = 0x0a;
pub const SPACE: u8 = 0x20;

/// A set of bytes over which the tokenizer runs.
#[derive(Clone, Copy)]
pub enum ByteClass {
    /// Insignificant whitespace: space, tab, carriage return, line feed.
    Space,
    /// Bytes that may continue an identifier: ASCII letters, digits and `_`.
    Word,
    /// ASCII decimal digits.
    Digit,
    /// Every byte but line feed.
    NotNewline,
    /// Every byte but the double quote.
    NotQuote,
}

pub open spec fn is_alpha(b: u8) -> bool {
    (0x41 <= b <= 0x5a) || (0x61 <= b <= 0x7a)
}

pub open spec fn is_digit(b: u8) -> bool {
    0x30 <= b <= 0x39
}

pub open spec fn in_class(c: ByteClass, b: u8) -> bool {
    match c {
        ByteClass::Space => b == SPACE || b == 0x09 || b == 0x0d || b == NEWLINE,
        ByteClass::Word => is_alpha(b) || is_digit(b) || b == UNDERSCORE,
        ByteClass::Digit => is_digit(b),
        ByteClass::NotNewline => b != NEWLINE,
        ByteClass::NotQuote => b != QUOTE,
    }
}

/// The end of the longest run of bytes of class `c` that starts at `i`.
pub open spec fn span(s: Seq<u8>, i: int, c: ByteClass) -> int
    decreases s.len() - i,
{
    if 0 <= i < s.len() && in_class(c, s[i]) {
        span(s, i + 1, c)
    } else {
        i
    }
}

/// The token of a delimiter byte.
pub open spec fn delimiter_token(b: u8) -> Option<TokenView> {
    if b == 0x28 {
        Some(TokenView::OpenParen)
    } else if b == 0x29 {
        Some(TokenView::CloseParen)
    } else if b == 0x7b {
        Some(TokenView::OpenBrace)
    } else if b == 0x7d {
        Some(TokenView::CloseBrace)
    } else if b == 0x5b {
        Some(TokenView::OpenBracket)
    } else if b == 0x5d {
        Some(TokenView::CloseIndex)
    } else {
        None
    }
}

/// The token of a two-byte operator: comparisons and compound assignments.
pub open spec fn pair_token(a: u8, b: u8) -> Option<TokenView> {
    if b != 0x3d {
        None
    } else if a == 0x3c {
        Some(TokenView::LesserEqual)
    } else if a == 0x3e {
        Some(TokenView::GreaterEqual)
    } else if a == 0x3d {
        Some(TokenView::Equal)
    } else if a == 0x21 {
        Some(TokenView::NotEqual)
    } else if a == 0x3a {
        Some(TokenView::Assign)
    } else if a == 0x2b {
        Some(TokenView::AddAssign)
    } else if a == 0x2d {
        Some(TokenView::SubAssign)
    } else if a == 0x2a {
        Some(TokenView::MultAssign)
    } else if a == SLASH {
        Some(TokenView::DivAssign)
    } else {
        None
    }
}

/// Whether `b` is the first byte of a lexeme of two bytes or more that
/// starts with punctuation (`<=`, `:=`, `//`, ...).
pub open spec fn starts_pair(b: u8) -> bool {
    b == 0x3c || b == 0x3e || b == 0x3d || b == 0x21 || b == 0x3a || b == 0x2b || b == 0x2d
        || b == 0x2a || b == SLASH
}

/// The token of a one-byte operator: `<`, `>` and the arithmetic operators.
pub open spec fn single_token(b: u8) -> Option<TokenView> {
    if b == 0x3c {
        Some(TokenView::Lesser)
    } else if b == 0x3e {
        Some(TokenView::Greater)
    } else if b == 0x2b {
        Some(TokenView::Plus)
    } else if b == 0x2d {
        Some(TokenView::Minus)
    } else if b == 0x2a {
        Some(TokenView::Star)
    } else if b == SLASH {
        Some(TokenView::Slash)
    } else if b == 0x25 {
        Some(TokenView::Percent)
    } else {
        None
    }
}

/// Bytes read as characters one for one (exact for ASCII).
pub open spec fn ascii_text(w: Seq<u8>) -> Seq<char> {
    w.map_values(|b: u8| b as char)
}

pub open spec fn word_if() -> Seq<u8> {
    seq![0x69u8, 0x66u8]
}

pub open spec fn word_else() -> Seq<u8> {
    seq![0x65u8, 0x6cu8, 0x73u8, 0x65u8]
}

pub open spec fn word_for() -> Seq<u8> {
    seq![0x66u8, 0x6fu8, 0x72u8]
}

pub open spec fn word_while() -> Seq<u8> {
    seq![0x77u8, 0x68u8, 0x69u8, 0x6cu8, 0x65u8]
}

pub open spec fn is_keyword(w: Seq<u8>) -> bool {
    w == word_if() || w == word_else() || w == word_for() || w == word_while()
}

/// The token of a whole word: a keyword or an identifier.
pub open spec fn word_token(w: Seq<u8>) -> TokenView {
    if w == word_if() {
        TokenView::If
    } else if w == word_else() {
        TokenView::Else
    } else if w == word_for() {
        TokenView::For
    } else if w == word_while() {
        TokenView::While
    } else {
        TokenView::Ident(ascii_text(w))
    }
}

/// Whether the word that ends at `k` is followed by exactly ` if` as a
/// whole word.
pub open spec fn else_if_follows(s: Seq<u8>, k: int) -> bool {
    &&& k + 3 <= s.len()
    &&& s[k] == SPACE
    &&& s[k + 1] == 0x69
    &&& s[k + 2] == 0x66
    &&& (k + 3 == s.len() || !in_class(ByteClass::Word, s[k + 3]))
}

/// The value of a sequence of decimal digits.
pub open spec fn digits_value(d: Seq<u8>) -> int
    decreases d.len(),
{
    if d.len() == 0 {
        0
    } else {
        digits_value(d.drop_last()) * 10 + (d.last() - 0x30)
    }
}

/// A string literal whose opening quote is at `j`.
pub open spec fn string_at(s: Seq<u8>, j: int) -> Result<(TokenView, int), LexErrorView> {
    let k = span(s, j + 1, ByteClass::NotQuote);
    if k >= s.len() {
        Err(LexErrorView::Incomplete(1))
    } else if valid_utf8(s.subrange(j + 1, k)) {
        Ok((TokenView::String(decode_utf8(s.subrange(j + 1, k))), k + 1))
    } else {
        Err(LexErrorView::Malformed)
    }
}

/// A keyword or identifier whose first letter is at `j`.
pub open spec fn word_at(s: Seq<u8>, j: int) -> Result<(TokenView, int), LexErrorView> {
    let k = span(s, j + 1, ByteClass::Word);
    let w = s.subrange(j, k);
    if w == word_else() && else_if_follows(s, k) {
        Ok((TokenView::ElseIf, k + 3))
    } else {
        Ok((word_token(w), k))
    }
}

/// An integer literal whose first digit is at `j`.
pub open spec fn integer_at(s: Seq<u8>, j: int) -> Result<(TokenView, int), LexErrorView> {
    let k = span(s, j, ByteClass::Digit);
    let v = digits_value(s.subrange(j, k));
    if v <= i32::MAX {
        Ok((TokenView::Integer(v), k))
    } else {
        Err(LexErrorView::Malformed)
    }
}

/// The lexeme that starts at `j`, a byte that is no whitespace: the token and
/// where the lexeme ends, or why there is none.
pub open spec fn lexeme_at(s: Seq<u8>, j: int) -> Result<(TokenView, int), LexErrorView> {
    let c = s[j];
    if c == QUOTE {
        string_at(s, j)
    } else if delimiter_token(c) is Some {
        Ok((delimiter_token(c)->0, j + 1))
    } else if is_alpha(c) {
        word_at(s, j)
    } else if c == SLASH && j + 1 < s.len() && s[j + 1] == SLASH {
        Ok((TokenView::Comment, span(s, j + 2, ByteClass::NotNewline)))
    } else if j + 1 < s.len() && pair_token(c, s[j + 1]) is Some {
        Ok((pair_token(c, s[j + 1])->0, j + 2))
    } else if j + 1 == s.len() && starts_pair(c) {
        Err(LexErrorView::Incomplete(1))
    } else if single_token(c) is Some {
        Ok((single_token(c)->0, j + 1))
    } else if is_digit(c) {
        integer_at(s, j)
    } else {
        Ok((TokenView::Char(c as char), j + 1))
    }
}

/// One step of the tokenizer on the unconsumed input `s`: leading
/// whitespace is skipped, then the lexeme there is recognized. The result is
/// the token and the number of bytes consumed; at the end of the input it is
/// `Eof` with the whole input consumed.
pub open spec fn step(s: Seq<u8>) -> Result<(TokenView, int), LexErrorView> {
    let j = span(s, 0, ByteClass::Space);
    if j >= s.len() {
        Ok((TokenView::Eof, s.len() as int))
    } else {
        lexeme_at(s, j)
    }
}

/// The tokens of `s`: steps are taken on what each leaves unconsumed until
/// `Eof`; comments are dropped; the first failing step fails the whole run.
pub open spec fn tokens_of(s: Seq<u8>) -> Result<Seq<TokenView>, LexErrorView>
    decreases s.len(),
{
    match step(s) {
        Err(e) => Err(e),
        Ok((t, k)) => {
            if t is Eof {
                Ok(seq![])
            } else if 0 < k <= s.len() {
                match tokens_of(s.subrange(k, s.len() as int)) {
                    Err(e) => Err(e),
                    Ok(rest) => Ok(
                        if t is Comment {
                            rest
                        } else {
                            seq![t] + rest
                        },
                    ),
                }
            } else {
                // never taken: a step that is not at the end consumes a byte or more
                Ok(seq![])
            }
        },
    }
}

pub proof fn lemma_span(s: Seq<u8>, i: int, c: ByteClass)
    requires
        0 <= i <= s.len(),
    ensures
        i <= span(s, i, c) <= s.len(),
        forall|k: int| i <= k < span(s, i, c) ==> in_class(c, #[trigger] s[k]),
        span(s, i, c) == s.len() || !in_class(c, s[span(s, i, c)]),
    decreases s.len() - i,
{
    if i < s.len() && in_class(c, s[i]) {
        lemma_span(s, i + 1, c);
    }
}

/// Every successful step consumes at most the input, and at least one byte
/// of an input that is not empty.
pub proof fn lemma_step_consumes(s: Seq<u8>)
    ensures
        step(s) is Ok ==> 0 <= step(s)->Ok_0.1 <= s.len(),
        step(s) is Ok && s.len() > 0 ==> 0 < step(s)->Ok_0.1,
{
    lemma_span(s, 0, ByteClass::Space);
    let j = span(s, 0, ByteClass::Space);
    if j < s.len() {
        let c = s[j];
        if c == QUOTE {
            lemma_span(s, j + 1, ByteClass::NotQuote);
        } else if delimiter_token(c) is Some {
        } else if is_alpha(c) {
            lemma_span(s, j + 1, ByteClass::Word);
        } else if c == SLASH && j + 1 < s.len() && s[j + 1] == SLASH {
            lemma_span(s, j + 2, ByteClass::NotNewline);
        } else {
            lemma_span(s, j, ByteClass::Digit);
        }
    }
}

/// Whether `b` is in class `c`.
pub fn class_has(c: ByteClass, b: u8) -> (r: bool)
    ensures
        r == in_class(c, b),
{
    match c {
        ByteClass::Space => b == SPACE || b == 0x09 || b == 0x0d || b == NEWLINE,
        ByteClass::Word => (0x41 <= b && b <= 0x5a) || (0x61 <= b && b <= 0x7a) || (0x30 <= b
            && b <= 0x39) || b == UNDERSCORE,
        ByteClass::Digit => 0x30 <= b && b <= 0x39,
        ByteClass::NotNewline => b != NEWLINE,
        ByteClass::NotQuote => b != QUOTE,
    }
}

/// The end of the run of bytes of class `c` that starts at `i`.
pub fn scan(data: &[u8], i: usize, c: ByteClass) -> (j: usize)
    requires
        i <= data@.len(),
    ensures
        j == span(data@, i as int, c),
        i <= j <= data@.len(),
{
    let mut j: usize = i;
    while j < data.len() && class_has(c, data[j])
        invariant
            i <= j <= data@.len(),
            span(data@, j as int, c) == span(data@, i as int, c),
        decreases data@.len() - j,
    {
        j = j + 1;
    }
    j
}

} // verus!
