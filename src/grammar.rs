//! The scanning rules, stated over the bytes of the source text.
use vstd::prelude::*;
use vstd::utf8::decode_utf8;
use crate::error::{ErrorKind, LexError};
use crate::token::{ConversionView, TokenView};

verus! {

// The ASCII codes of the bytes that the rules name.
pub const DIGIT_ZERO: u8 = 48;
pub const DIGIT_NINE: u8 = 57;
pub const LOWER_A: u8 = 97;
pub const LOWER_Z: u8 = 122;
pub const UPPER_A: u8 = 65;
pub const UPPER_Z: u8 = 90;
pub const PLUS: u8 = 43;
pub const MINUS: u8 = 45;
pub const ASTERISK: u8 = 42;
pub const SLASH: u8 = 47;
pub const BANG: u8 = 33;
pub const EQUAL: u8 = 61;
pub const LESS_THAN: u8 = 60;
pub const GREATER_THAN: u8 = 62;
pub const LPAREN: u8 = 40;
pub const RPAREN: u8 = 41;
pub const SPACE: u8 = 32;
pub const NEWLINE: u8 = 10;
pub const BACKSLASH: u8 = 92;
pub const HASH: u8 = 35;
pub const QUOTE: u8 = 34;
pub const LOWER_I: u8 = 105;
pub const LOWER_F: u8 = 102;
pub const LOWER_S: u8 = 115;
pub const LOWER_P: u8 = 112;

/// An ASCII digit.
pub open spec fn is_digit(b: u8) -> bool {
    DIGIT_ZERO <= b <= DIGIT_NINE
}

/// An ASCII letter.
pub open spec fn is_letter(b: u8) -> bool {
    (LOWER_A <= b <= LOWER_Z) || (UPPER_A <= b <= UPPER_Z)
}

/// The token of a single-byte operator, or `None` when `b` is no operator.
pub open spec fn operator_token(b: u8) -> Option<TokenView> {
    if b == PLUS {
        Some(TokenView::Plus)
    } else if b == MINUS {
        Some(TokenView::Minus)
    } else if b == ASTERISK {
        Some(TokenView::Asterisk)
    } else if b == SLASH {
        Some(TokenView::Slash)
    } else if b == BANG {
        Some(TokenView::Bang)
    } else if b == EQUAL {
        Some(TokenView::Equal)
    } else if b == LESS_THAN {
        Some(TokenView::LessThan)
    } else if b == GREATER_THAN {
        Some(TokenView::GreaterThan)
    } else if b == LPAREN {
        Some(TokenView::LParen)
    } else if b == RPAREN {
        Some(TokenView::RParen)
    } else {
        None
    }
}

/// A byte that is a token of its own.
pub open spec fn is_operator(b: u8) -> bool {
    operator_token(b) is Some
}

/// A byte that is skipped, one at a time, between tokens.
pub open spec fn is_blank(b: u8) -> bool {
    b == SPACE || b == NEWLINE || b == BACKSLASH
}

/// The bytes of `int`.
pub open spec fn int_word() -> Seq<u8> {
    seq![105u8, 110, 116]
}

/// The bytes of `float`.
pub open spec fn float_word() -> Seq<u8> {
    seq![102u8, 108, 111, 97, 116]
}

/// The bytes of `str`.
pub open spec fn str_word() -> Seq<u8> {
    seq![115u8, 116, 114]
}

/// The bytes of `print`.
pub open spec fn print_word() -> Seq<u8> {
    seq![112u8, 114, 105, 110, 116]
}

/// The bytes that open and close a docstring.
pub open spec fn triple_quote() -> Seq<u8> {
    seq![QUOTE, QUOTE, QUOTE]
}

/// Whether `word` occurs in `s` at offset `pos`.
pub open spec fn word_at(s: Seq<u8>, pos: int, word: Seq<u8>) -> bool {
    &&& 0 <= pos
    &&& pos + word.len() <= s.len()
    &&& s.subrange(pos, pos + word.len()) == word
}

/// The offset of the first `target` byte at or after `from`, if there is one.
pub open spec fn find_byte(s: Seq<u8>, from: int, target: u8) -> Option<int>
    decreases s.len() - from,
{
    if from < 0 || from >= s.len() {
        None
    } else if s[from] == target {
        Some(from)
    } else {
        find_byte(s, from + 1, target)
    }
}

/// Where a comment whose text starts at `from` ends: at the next newline, which
/// stays unread, or at the end of the source.
pub open spec fn end_of_line(s: Seq<u8>, from: int) -> int {
    match find_byte(s, from, NEWLINE) {
        Some(e) => e,
        None => s.len() as int,
    }
}

/// The end of the run of spaces that starts at `from`.
pub open spec fn spaces_end(s: Seq<u8>, from: int) -> int
    decreases s.len() - from,
{
    if from < 0 || from >= s.len() || s[from] != SPACE {
        from
    } else {
        spaces_end(s, from + 1)
    }
}

/// The offset just past the first triple quote at or after `from`, if there is one.
pub open spec fn docstring_end(s: Seq<u8>, from: int) -> Option<int>
    decreases s.len() - from,
{
    if from < 0 || from + 3 > s.len() {
        None
    } else if word_at(s, from, triple_quote()) {
        Some(from + 3)
    } else {
        docstring_end(s, from + 1)
    }
}

/// The end of the run of ASCII digits that starts at `from`.
pub open spec fn digits_end(s: Seq<u8>, from: int) -> int
    decreases s.len() - from,
{
    if from < 0 || from >= s.len() || !is_digit(s[from]) {
        from
    } else {
        digits_end(s, from + 1)
    }
}

/// The end of the run of ASCII letters that starts at `from`.
pub open spec fn letters_end(s: Seq<u8>, from: int) -> int
    decreases s.len() - from,
{
    if from < 0 || from >= s.len() || !is_letter(s[from]) {
        from
    } else {
        letters_end(s, from + 1)
    }
}

/// The decimal value of a sequence of ASCII digits.
pub open spec fn digits_value(d: Seq<u8>) -> nat
    decreases d.len(),
{
    if d.len() == 0 {
        0
    } else {
        digits_value(d.drop_last()) * 10 + (d.last() - DIGIT_ZERO) as nat
    }
}

/// The characters that the bytes from `from` up to `to` encode.
pub open spec fn text_of(s: Seq<u8>, from: int, to: int) -> Seq<char> {
    decode_utf8(s.subrange(from, to))
}

/// A failure of the given kind at offset `at`.
pub open spec fn fail(kind: ErrorKind, at: int) -> Result<TokenView, LexError> {
    Err(LexError { kind, position: at as usize })
}

/// A conversion keyword that starts at `start` and whose argument starts at
/// `arg`: a quoted argument is taken whole, a digit is left for the next token.
pub open spec fn scan_conversion(s: Seq<u8>, start: int, arg: int, is_float: bool) -> (
    Result<TokenView, LexError>,
    int,
) {
    if arg >= s.len() {
        (fail(ErrorKind::UnexpectedEnd, arg), start)
    } else if s[arg] == QUOTE {
        match find_byte(s, arg + 1, QUOTE) {
            Some(close) => {
                let text = text_of(s, arg + 1, close);
                let kind = if is_float {
                    ConversionView::StringToFloat(text)
                } else {
                    ConversionView::StringToInt(text)
                };
                (Ok(TokenView::TypeConversion(kind)), close + 1)
            },
            None => (fail(ErrorKind::Unterminated, arg), start),
        }
    } else if is_digit(s[arg]) {
        let kind = if is_float {
            ConversionView::IntToFloat
        } else {
            ConversionView::FloatToInt
        };
        (Ok(TokenView::TypeConversion(kind)), arg)
    } else {
        (fail(ErrorKind::UnrecognizedByte(s[arg]), arg), start)
    }
}

/// The token that starts at `pos`, which holds no blank, comment or docstring,
/// and the offset where scanning goes on. On failure the offset stays `pos`.
pub open spec fn lex_token(s: Seq<u8>, pos: int) -> (Result<TokenView, LexError>, int)
    recommends
        0 <= pos < s.len(),
{
    let b = s[pos];
    let unknown = (fail(ErrorKind::UnrecognizedByte(b), pos), pos);
    if is_operator(b) {
        (Ok(operator_token(b)->Some_0), pos + 1)
    } else if b == LOWER_I {
        if word_at(s, pos, int_word()) {
            scan_conversion(s, pos, pos + 3, false)
        } else {
            unknown
        }
    } else if b == LOWER_F {
        if word_at(s, pos, float_word()) {
            scan_conversion(s, pos, pos + 5, true)
        } else {
            unknown
        }
    } else if b == LOWER_S {
        if word_at(s, pos, str_word()) {
            (Ok(TokenView::TypeConversion(ConversionView::IntToString)), pos + 3)
        } else {
            unknown
        }
    } else if b == LOWER_P {
        if word_at(s, pos, print_word()) {
            (Ok(TokenView::Print), pos + 5)
        } else {
            unknown
        }
    } else if b == QUOTE {
        match find_byte(s, pos + 1, QUOTE) {
            Some(close) => (Ok(TokenView::StringLiteral(text_of(s, pos + 1, close))), close + 1),
            None => (fail(ErrorKind::Unterminated, pos), pos),
        }
    } else if is_digit(b) {
        let end = digits_end(s, pos);
        let value = digits_value(s.subrange(pos, end));
        if value <= i32::MAX {
            (Ok(TokenView::Number(value as i32)), end)
        } else {
            (fail(ErrorKind::NumberOverflow, pos), pos)
        }
    } else if is_letter(b) {
        let end = letters_end(s, pos);
        (Ok(TokenView::Identifier(text_of(s, pos, end))), end)
    } else {
        unknown
    }
}

/// What one request for the next token gives when the cursor stands at `pos`:
/// the result, and the offset where the cursor then rests.
///
/// Spaces, newlines and backslashes are skipped, a `#` comment is skipped up to
/// the newline, a docstring up to its closing triple quote; then one token is read.
/// At the end of the source the result is `EndOfInput` and the cursor stays.
pub open spec fn scan(s: Seq<u8>, pos: int) -> (Result<TokenView, LexError>, int)
    decreases s.len() - pos,
{
    if pos < 0 || pos >= s.len() {
        (Ok(TokenView::EndOfInput), pos)
    } else if is_blank(s[pos]) {
        scan(s, pos + 1)
    } else if s[pos] == HASH {
        let next = end_of_line(s, pos + 1);
        proof {
            lemma_end_of_line(s, pos + 1);
        }
        scan(s, next)
    } else if word_at(s, pos, triple_quote()) {
        match docstring_end(s, pos + 3) {
            Some(next) => {
                proof {
                    lemma_docstring_end(s, pos + 3);
                }
                scan(s, next)
            },
            None => (fail(ErrorKind::Unterminated, pos), pos),
        }
    } else {
        lex_token(s, pos)
    }
}

/// The whole token sequence from `pos` on, up to and including `EndOfInput`,
/// or the first failure.
pub open spec fn lex_all(s: Seq<u8>, pos: int) -> Result<Seq<TokenView>, LexError>
    decreases s.len() - pos,
{
    let (r, next) = scan(s, pos);
    match r {
        Err(e) => Err(e),
        Ok(t) => if t is EndOfInput {
            Ok(seq![t])
        } else {
            proof {
                lemma_scan_advances(s, pos);
            }
            prepend(seq![t], lex_all(s, next))
        },
    }
}

/// `front` followed by the tokens of `rest`, or the failure of `rest`.
pub open spec fn prepend(front: Seq<TokenView>, rest: Result<Seq<TokenView>, LexError>) -> Result<
    Seq<TokenView>,
    LexError,
> {
    match rest {
        Ok(r) => Ok(front + r),
        Err(e) => Err(e),
    }
}

/// What [`find_byte`] finds: the first `target` at or after `from`.
pub proof fn lemma_find_byte(s: Seq<u8>, from: int, target: u8)
    requires
        0 <= from,
    ensures
        match find_byte(s, from, target) {
            Some(c) => from <= c < s.len() && s[c] == target && forall|k: int|
                from <= k < c ==> s[k] != target,
            None => forall|k: int| from <= k < s.len() ==> s[k] != target,
        },
    decreases s.len() - from,
{
    if from < s.len() && s[from] != target {
        lemma_find_byte(s, from + 1, target);
    }
}

/// A comment ends at the first newline after it, or at the end of the source.
pub proof fn lemma_end_of_line(s: Seq<u8>, from: int)
    requires
        0 <= from <= s.len(),
    ensures
        from <= end_of_line(s, from) <= s.len(),
        forall|k: int| from <= k < end_of_line(s, from) ==> s[k] != NEWLINE,
        end_of_line(s, from) == s.len() || s[end_of_line(s, from)] == NEWLINE,
{
    lemma_find_byte(s, from, NEWLINE);
}

/// What [`docstring_end`] finds: the first triple quote at or after `from`.
pub proof fn lemma_docstring_end(s: Seq<u8>, from: int)
    requires
        0 <= from,
    ensures
        match docstring_end(s, from) {
            Some(e) => from + 3 <= e <= s.len() && word_at(s, e - 3, triple_quote()) && forall|
                k: int,
            |
                from <= k < e - 3 ==> !word_at(s, k, triple_quote()),
            None => forall|k: int| from <= k && k + 3 <= s.len() ==> !word_at(s, k, triple_quote()),
        },
    decreases s.len() - from,
{
    if from + 3 <= s.len() && !word_at(s, from, triple_quote()) {
        lemma_docstring_end(s, from + 1);
    }
}

/// The run of digits from `from` ends at the first byte that is no digit.
pub proof fn lemma_digits_end(s: Seq<u8>, from: int)
    requires
        0 <= from <= s.len(),
    ensures
        from <= digits_end(s, from) <= s.len(),
        forall|k: int| from <= k < digits_end(s, from) ==> is_digit(s[k]),
        digits_end(s, from) == s.len() || !is_digit(s[digits_end(s, from)]),
    decreases s.len() - from,
{
    if from < s.len() && is_digit(s[from]) {
        lemma_digits_end(s, from + 1);
    }
}

/// The run of letters from `from` ends at the first byte that is no letter.
pub proof fn lemma_letters_end(s: Seq<u8>, from: int)
    requires
        0 <= from <= s.len(),
    ensures
        from <= letters_end(s, from) <= s.len(),
        forall|k: int| from <= k < letters_end(s, from) ==> is_letter(s[k]),
        letters_end(s, from) == s.len() || !is_letter(s[letters_end(s, from)]),
    decreases s.len() - from,
{
    if from < s.len() && is_letter(s[from]) {
        lemma_letters_end(s, from + 1);
    }
}

/// Scanning never moves the cursor back nor past the end, and every token but
/// `EndOfInput` consumes at least one byte.
pub proof fn lemma_scan_advances(s: Seq<u8>, pos: int)
    ensures
        0 <= pos <= s.len() ==> pos <= scan(s, pos).1 <= s.len(),
        scan(s, pos).0 is Ok && !(scan(s, pos).0->Ok_0 is EndOfInput) ==> 0 <= pos < scan(s, pos).1
            <= s.len(),
        scan(s, pos).0 is Ok && scan(s, pos).0->Ok_0 is EndOfInput ==> scan(s, pos).1 >= s.len()
            || pos < 0,
    decreases s.len() - pos,
{
    if 0 <= pos < s.len() {
        if is_blank(s[pos]) {
            lemma_scan_advances(s, pos + 1);
        } else if s[pos] == HASH {
            lemma_end_of_line(s, pos + 1);
            lemma_scan_advances(s, end_of_line(s, pos + 1));
        } else if word_at(s, pos, triple_quote()) {
            lemma_docstring_end(s, pos + 3);
            if let Some(next) = docstring_end(s, pos + 3) {
                lemma_scan_advances(s, next);
            }
        } else {
            lemma_lex_token_advances(s, pos);
        }
    }
}

/// Skipping spaces does not change what scanning gives.
pub proof fn lemma_scan_after_spaces(s: Seq<u8>, from: int)
    requires
        0 <= from <= s.len(),
    ensures
        from <= spaces_end(s, from) <= s.len(),
        spaces_end(s, from) == s.len() || s[spaces_end(s, from)] != SPACE,
        scan(s, spaces_end(s, from)) == scan(s, from),
    decreases s.len() - from,
{
    if from < s.len() && s[from] == SPACE {
        lemma_scan_after_spaces(s, from + 1);
    }
}

/// Each digit added at the end of a run keeps or raises its value.
pub proof fn lemma_digits_value_prefix(d: Seq<u8>, k: int)
    requires
        0 <= k <= d.len(),
    ensures
        digits_value(d.subrange(0, k)) <= digits_value(d),
    decreases d.len(),
{
    if k == d.len() {
        assert(d.subrange(0, k) =~= d);
    } else {
        lemma_digits_value_prefix(d.drop_last(), k);
        assert(d.drop_last().subrange(0, k) =~= d.subrange(0, k));
    }
}

proof fn lemma_lex_token_advances(s: Seq<u8>, pos: int)
    requires
        0 <= pos < s.len(),
    ensures
        pos <= lex_token(s, pos).1 <= s.len(),
        lex_token(s, pos).0 is Ok ==> pos < lex_token(s, pos).1 && !(lex_token(
            s,
            pos,
        ).0->Ok_0 is EndOfInput),
{
    let b = s[pos];
    if b == QUOTE {
        lemma_find_byte(s, pos + 1, QUOTE);
    } else if b == LOWER_I || b == LOWER_F {
        lemma_find_byte(s, pos + 4, QUOTE);
        lemma_find_byte(s, pos + 6, QUOTE);
    } else if is_digit(b) {
        lemma_digits_end(s, pos);
    } else if is_letter(b) {
        lemma_letters_end(s, pos);
    }
}

} // verus!
