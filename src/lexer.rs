//! The scanner: a source text and a cursor into its bytes.
use vstd::prelude::*;
use vstd::utf8::{encode_utf8, encode_utf8_valid_utf8, valid_utf8};
use crate::error::{ErrorKind, LexError};
use crate::grammar::{
    digits_end, digits_value, docstring_end, find_byte, float_word, int_word, is_digit, is_letter,
    lemma_digits_end, lemma_digits_value_prefix, lemma_docstring_end, lemma_find_byte,
    lemma_scan_after_spaces, lemma_scan_advances, letters_end, lex_all, lex_token, operator_token,
    prepend, print_word, scan, scan_conversion, spaces_end, str_word, text_of, triple_quote, word_at,
    ASTERISK, BACKSLASH, BANG, DIGIT_NINE, DIGIT_ZERO, EQUAL, GREATER_THAN, HASH, LESS_THAN, LOWER_A,
    LOWER_F, LOWER_I, LOWER_P, LOWER_S, LOWER_Z, LPAREN, MINUS, NEWLINE, PLUS, QUOTE, RPAREN, SLASH,
    SPACE, UPPER_A, UPPER_Z,
};
use crate::text::{lemma_no_continuation_after_ascii, substring};
use crate::token::{result_view, Token, TokenView, TypeConversion};

verus! {

/// Reads tokens one at a time from a source text held in memory.
pub struct Lexer {
    input: String,
    position: usize,
}

impl Lexer {
    /// The bytes of the source text.
    pub closed spec fn source(&self) -> Seq<u8> {
        encode_utf8(self.input@)
    }

    /// The byte offset of the cursor.
    pub closed spec fn cursor(&self) -> int {
        self.position as int
    }

    /// The cursor lies within the source text, whose length fits in a `usize`.
    pub open spec fn wf(&self) -> bool {
        &&& 0 <= self.cursor() <= self.source().len()
        &&& self.source().len() <= usize::MAX
    }

    /// A scanner at the start of `input`.
    pub fn new(input: String) -> (r: Lexer)
        ensures
            r.wf(),
            r.source() == encode_utf8(input@),
            r.cursor() == 0,
    {
        let lexer = Lexer { input, position: 0 };
        // The byte length of a string is a `usize`.
        let _ = lexer.len();
        lexer
    }

    pub fn position(&self) -> (r: usize)
        ensures
            r == self.cursor(),
    {
        self.position
    }

    fn len(&self) -> (n: usize)
        ensures
            n == self.source().len(),
    {
        self.input.as_str().as_bytes().len()
    }

    fn byte_at(&self, i: usize) -> (b: u8)
        requires
            i < self.source().len(),
        ensures
            b == self.source()[i as int],
    {
        self.input.as_str().as_bytes()[i]
    }

    proof fn lemma_valid(&self)
        ensures
            valid_utf8(self.source()),
    {
        encode_utf8_valid_utf8(self.input@);
    }

    /// Moves the cursor one byte on.
    pub fn consume(&mut self)
        requires
            old(self).wf(),
            old(self).cursor() < old(self).source().len(),
        ensures
            final(self).wf(),
            final(self).source() == old(self).source(),
            final(self).cursor() == old(self).cursor() + 1,
    {
        self.position = self.position + 1;
    }

    /// Moves the cursor past the spaces that it stands on.
    pub fn quit_whitespace(&mut self)
        requires
            old(self).wf(),
        ensures
            final(self).wf(),
            final(self).source() == old(self).source(),
            final(self).cursor() == spaces_end(old(self).source(), old(self).cursor()),
    {
        let ghost s = self.source();
        let ghost start = self.cursor();
        let len = self.len();
        while self.position < len && self.byte_at(self.position) == SPACE
            invariant
                self.wf(),
                self.source() == s,
                len == s.len(),
                spaces_end(s, self.cursor()) == spaces_end(s, start),
            decreases len - self.position,
        {
            self.consume();
        }
    }

    /// The byte under the cursor, or `None` at the end of the source.
    pub fn current_char(&self) -> (r: Option<u8>)
        requires
            self.wf(),
        ensures
            r == (if self.cursor() < self.source().len() {
                Some(self.source()[self.cursor()])
            } else {
                None
            }),
    {
        if self.position >= self.len() {
            None
        } else {
            Some(self.byte_at(self.position))
        }
    }

    /// Reads the run of digits under the cursor as a number. When its value does
    /// not fit in an `i32` the cursor stays.
    pub fn read_number(&mut self) -> (r: Result<i32, LexError>)
        requires
            old(self).wf(),
            old(self).cursor() < old(self).source().len(),
            is_digit(old(self).source()[old(self).cursor()]),
        ensures
            final(self).wf(),
            final(self).source() == old(self).source(),
            ({
                let s = old(self).source();
                let start = old(self).cursor();
                let end = digits_end(s, start);
                let value = digits_value(s.subrange(start, end));
                if value <= i32::MAX {
                    r == Ok::<i32, LexError>(value as i32) && final(self).cursor() == end
                } else {
                    r == Err::<i32, LexError>(
                        LexError { kind: ErrorKind::NumberOverflow, position: start as usize },
                    ) && final(self).cursor() == start
                }
            }),
    {
        let ghost s = self.source();
        let start = self.position;
        let len = self.len();
        let mut i: usize = start;
        let mut value: u64 = 0;
        proof {
            lemma_digits_end(s, start as int);
            assert(s.subrange(start as int, start as int) =~= Seq::<u8>::empty());
        }
        while i < len && DIGIT_ZERO <= self.byte_at(i) && self.byte_at(i) <= DIGIT_NINE
            invariant
                self.source() == s,
                self.position == start,
                len == s.len(),
                start <= i <= len,
                digits_end(s, i as int) == digits_end(s, start as int),
                value == digits_value(s.subrange(start as int, i as int)),
                value <= i32::MAX,
            decreases len - i,
        {
            let d = self.byte_at(i) - DIGIT_ZERO;
            let next = value * 10 + d as u64;
            proof {
                assert(s.subrange(start as int, i + 1).drop_last() =~= s.subrange(
                    start as int,
                    i as int,
                ));
            }
            if next > i32::MAX as u64 {
                proof {
                    let end = digits_end(s, start as int);
                    lemma_digits_end(s, i + 1);
                    lemma_digits_value_prefix(s.subrange(start as int, end), i + 1 - start);
                    assert(s.subrange(start as int, end).subrange(0, i + 1 - start) =~= s.subrange(
                        start as int,
                        i + 1,
                    ));
                }
                return Err(LexError { kind: ErrorKind::NumberOverflow, position: start });
            }
            value = next;
            i = i + 1;
        }
        self.position = i;
        Ok(value as i32)
    }

    /// Reads the run of letters under the cursor.
    pub fn read_identifier(&mut self) -> (r: String)
        requires
            old(self).wf(),
        ensures
            final(self).wf(),
            final(self).source() == old(self).source(),
            final(self).cursor() == letters_end(old(self).source(), old(self).cursor()),
            r@ == text_of(
                old(self).source(),
                old(self).cursor(),
                letters_end(old(self).source(), old(self).cursor()),
            ),
    {
        let ghost s = self.source();
        let start = self.position;
        let len = self.len();
        let mut i: usize = start;
        while i < len && self.is_letter_at(i)
            invariant
                self.source() == s,
                self.position == start,
                len == s.len(),
                start <= i <= len,
                letters_end(s, i as int) == letters_end(s, start as int),
                forall|k: int| start <= k < i ==> is_letter(s[k]),
            decreases len - i,
        {
            i = i + 1;
        }
        self.position = i;
        if i == start {
            proof {
                assert(s.subrange(start as int, i as int) =~= Seq::<u8>::empty());
            }
            String::new()
        } else {
            proof {
                self.lemma_valid();
                if i < len {
                    lemma_no_continuation_after_ascii(s, i - 1);
                }
            }
            substring(self.input.as_str(), start, i)
        }
    }

    /// Whether `word` stands in the source at `pos`.
    fn word_at(&self, pos: usize, word: &[u8]) -> (r: bool)
        requires
            self.wf(),
        ensures
            r == word_at(self.source(), pos as int, word@),
    {
        let len = self.len();
        if pos > len || word.len() > len - pos {
            return false;
        }
        let ghost s = self.source();
        let mut k: usize = 0;
        while k < word.len()
            invariant
                self.wf(),
                self.source() == s,
                pos + word@.len() <= s.len(),
                0 <= k <= word@.len(),
                forall|j: int| 0 <= j < k ==> s[pos + j] == word@[j],
            decreases word.len() - k,
        {
            if self.byte_at(pos + k) != word[k] {
                proof {
                    assert(s.subrange(pos as int, pos + word@.len())[k as int] != word@[k as int]);
                }
                return false;
            }
            k = k + 1;
        }
        proof {
            assert(s.subrange(pos as int, pos + word@.len()) =~= word@);
        }
        true
    }

    /// The offset of the first `target` byte at or after `from`.
    fn find_byte(&self, from: usize, target: u8) -> (r: Option<usize>)
        requires
            self.wf(),
            from <= self.source().len(),
        ensures
            match r {
                Some(c) => find_byte(self.source(), from as int, target) == Some(c as int),
                None => find_byte(self.source(), from as int, target) is None,
            },
    {
        let ghost s = self.source();
        let len = self.len();
        let mut i: usize = from;
        while i < len
            invariant
                self.source() == s,
                len == s.len(),
                from <= i <= len,
                find_byte(s, i as int, target) == find_byte(s, from as int, target),
            decreases len - i,
        {
            if self.byte_at(i) == target {
                return Some(i);
            }
            i = i + 1;
        }
        None
    }

    /// The offset just past the first triple quote at or after `from`.
    fn docstring_end(&self, from: usize) -> (r: Option<usize>)
        requires
            self.wf(),
            from <= self.source().len(),
        ensures
            match r {
                Some(e) => docstring_end(self.source(), from as int) == Some(e as int),
                None => docstring_end(self.source(), from as int) is None,
            },
    {
        let ghost s = self.source();
        let len = self.len();
        let mut i: usize = from;
        while i < len
            invariant
                self.wf(),
                self.source() == s,
                len == s.len(),
                from <= i <= len,
                docstring_end(s, i as int) == docstring_end(s, from as int),
            decreases len - i,
        {
            if self.word_at(i, &[QUOTE, QUOTE, QUOTE]) {
                proof {
                    assert([QUOTE, QUOTE, QUOTE]@ =~= triple_quote());
                }
                return Some(i + 3);
            }
            proof {
                assert([QUOTE, QUOTE, QUOTE]@ =~= triple_quote());
            }
            i = i + 1;
        }
        None
    }

    /// Gives the next token and moves the cursor past it. Blanks, comments and
    /// docstrings before it are skipped. At the end of the source the result is
    /// `EndOfInput`, as often as it is asked for. On failure the cursor rests where
    /// the token that failed begins.
    pub fn next_token(&mut self) -> (r: Result<Token, LexError>)
        requires
            old(self).wf(),
        ensures
            final(self).wf(),
            final(self).source() == old(self).source(),
            (result_view(r), final(self).cursor()) == scan(old(self).source(), old(self).cursor()),
    {
        let ghost s = self.source();
        let ghost start = self.cursor();
        let len = self.len();
        loop
            invariant
                s == old(self).source(),
                start == old(self).cursor(),
                self.wf(),
                self.source() == s,
                len == s.len(),
                scan(s, self.cursor()) == scan(s, start),
            decreases len - self.position,
        {
            proof {
                lemma_scan_after_spaces(s, self.cursor());
            }
            self.quit_whitespace();
            let pos = self.position;
            if pos >= len {
                return Ok(Token::EndOfInput);
            }
            let b = self.byte_at(pos);
            if b == NEWLINE {
                while self.position < len && self.byte_at(self.position) == NEWLINE
                    invariant
                        self.wf(),
                        self.source() == s,
                        len == s.len(),
                        pos <= self.position,
                        scan(s, self.cursor()) == scan(s, start),
                    decreases len - self.position,
                {
                    self.consume();
                }
            } else if b == BACKSLASH {
                self.consume();
            } else if b == HASH {
                proof {
                    lemma_find_byte(s, pos + 1, NEWLINE);
                }
                match self.find_byte(pos + 1, NEWLINE) {
                    Some(e) => self.position = e,
                    None => self.position = len,
                }
            } else if self.word_at(pos, &[QUOTE, QUOTE, QUOTE]) {
                proof {
                    assert([QUOTE, QUOTE, QUOTE]@ =~= triple_quote());
                    lemma_docstring_end(s, pos + 3);
                }
                match self.docstring_end(pos + 3) {
                    Some(e) => self.position = e,
                    None => {
                        return Err(LexError { kind: ErrorKind::Unterminated, position: pos });
                    },
                }
            } else {
                proof {
                    assert([QUOTE, QUOTE, QUOTE]@ =~= triple_quote());
                }
                return self.read_token();
            }
        }
    }

    /// Reads the token under the cursor, where no blank, comment or docstring stands.
    fn read_token(&mut self) -> (r: Result<Token, LexError>)
        requires
            old(self).wf(),
            old(self).cursor() < old(self).source().len(),
        ensures
            final(self).wf(),
            final(self).source() == old(self).source(),
            (result_view(r), final(self).cursor()) == lex_token(
                old(self).source(),
                old(self).cursor(),
            ),
    {
        let pos = self.position;
        let b = self.byte_at(pos);
        if let Some(t) = operator(b) {
            self.position = pos + 1;
            return Ok(t);
        }
        let unknown = Err(LexError { kind: ErrorKind::UnrecognizedByte(b), position: pos });
        if b == LOWER_I {
            // `int`
            let found = self.word_at(pos, &[105, 110, 116]);
            proof {
                assert([105u8, 110, 116]@ =~= int_word());
            }
            if found {
                self.read_conversion(pos + 3, false)
            } else {
                unknown
            }
        } else if b == LOWER_F {
            // `float`
            let found = self.word_at(pos, &[102, 108, 111, 97, 116]);
            proof {
                assert([102u8, 108, 111, 97, 116]@ =~= float_word());
            }
            if found {
                self.read_conversion(pos + 5, true)
            } else {
                unknown
            }
        } else if b == LOWER_S {
            // `str`
            let found = self.word_at(pos, &[115, 116, 114]);
            proof {
                assert([115u8, 116, 114]@ =~= str_word());
            }
            if found {
                self.position = pos + 3;
                Ok(Token::TypeConversion(TypeConversion::IntToString))
            } else {
                unknown
            }
        } else if b == LOWER_P {
            // `print`
            let found = self.word_at(pos, &[112, 114, 105, 110, 116]);
            proof {
                assert([112u8, 114, 105, 110, 116]@ =~= print_word());
            }
            if found {
                self.position = pos + 5;
                Ok(Token::Print)
            } else {
                unknown
            }
        } else if b == QUOTE {
            match self.quoted(pos) {
                Some((text, close)) => {
                    self.position = close + 1;
                    Ok(Token::StringLiteral(text))
                },
                None => Err(LexError { kind: ErrorKind::Unterminated, position: pos }),
            }
        } else if DIGIT_ZERO <= b && b <= DIGIT_NINE {
            match self.read_number() {
                Ok(n) => Ok(Token::Number(n)),
                Err(e) => Err(e),
            }
        } else if self.is_letter_at(pos) {
            Ok(Token::Identifier(self.read_identifier()))
        } else {
            unknown
        }
    }

    /// Reads the argument of a conversion keyword that starts at the cursor and
    /// whose argument starts at `arg`.
    fn read_conversion(&mut self, arg: usize, is_float: bool) -> (r: Result<Token, LexError>)
        requires
            old(self).wf(),
            old(self).cursor() < arg <= old(self).source().len(),
        ensures
            final(self).wf(),
            final(self).source() == old(self).source(),
            (result_view(r), final(self).cursor()) == scan_conversion(
                old(self).source(),
                old(self).cursor(),
                arg as int,
                is_float,
            ),
    {
        if arg >= self.len() {
            return Err(LexError { kind: ErrorKind::UnexpectedEnd, position: arg });
        }
        let b = self.byte_at(arg);
        if b == QUOTE {
            match self.quoted(arg) {
                Some((text, close)) => {
                    self.position = close + 1;
                    let kind = if is_float {
                        TypeConversion::StringToFloat(text)
                    } else {
                        TypeConversion::StringToInt(text)
                    };
                    Ok(Token::TypeConversion(kind))
                },
                None => Err(LexError { kind: ErrorKind::Unterminated, position: arg }),
            }
        } else if DIGIT_ZERO <= b && b <= DIGIT_NINE {
            self.position = arg;
            let kind = if is_float {
                TypeConversion::IntToFloat
            } else {
                TypeConversion::FloatToInt
            };
            Ok(Token::TypeConversion(kind))
        } else {
            Err(LexError { kind: ErrorKind::UnrecognizedByte(b), position: arg })
        }
    }

    /// The text between the quote at `open` and the next quote, and the offset
    /// of that closing quote.
    fn quoted(&self, open: usize) -> (r: Option<(String, usize)>)
        requires
            self.wf(),
            open < self.source().len(),
            self.source()[open as int] == QUOTE,
        ensures
            match r {
                Some((text, close)) => {
                    &&& open < close < self.source().len()
                    &&& find_byte(self.source(), open + 1, QUOTE) == Some(close as int)
                    &&& text@ == text_of(self.source(), open + 1, close as int)
                },
                None => find_byte(self.source(), open + 1, QUOTE) is None,
            },
    {
        let ghost s = self.source();
        match self.find_byte(open + 1, QUOTE) {
            Some(close) => {
                proof {
                    lemma_find_byte(s, open + 1, QUOTE);
                    self.lemma_valid();
                    if open + 1 < s.len() {
                        lemma_no_continuation_after_ascii(s, open as int);
                    }
                }
                Some((substring(self.input.as_str(), open + 1, close), close))
            },
            None => None,
        }
    }

    fn is_letter_at(&self, i: usize) -> (r: bool)
        requires
            i < self.source().len(),
        ensures
            r == is_letter(self.source()[i as int]),
    {
        let b = self.byte_at(i);
        (LOWER_A <= b && b <= LOWER_Z) || (UPPER_A <= b && b <= UPPER_Z)
    }
}

/// The mathematical values of a sequence of tokens.
pub open spec fn views(v: Seq<Token>) -> Seq<TokenView> {
    v.map_values(|t: Token| t@)
}

/// All the tokens of `source`, up to and including `EndOfInput`, or the first failure.
pub fn tokenize(source: &str) -> (r: Result<Vec<Token>, LexError>)
    ensures
        match r {
            Ok(v) => lex_all(encode_utf8(source@), 0) == Ok::<Seq<TokenView>, LexError>(views(v@)),
            Err(e) => lex_all(encode_utf8(source@), 0) == Err::<Seq<TokenView>, LexError>(e),
        },
{
    let mut lexer = Lexer::new(source.to_owned());
    let ghost s = lexer.source();
    let mut tokens: Vec<Token> = Vec::new();
    proof {
        assert(views(tokens@) =~= Seq::<TokenView>::empty());
        assert(prepend(views(tokens@), lex_all(s, 0)) =~= lex_all(s, 0)) by {
            if let Ok(rest) = lex_all(s, 0) {
                assert(views(tokens@) + rest =~= rest);
            }
        }
    }
    loop
        invariant
            s == encode_utf8(source@),
            lexer.wf(),
            lexer.source() == s,
            lex_all(s, 0) == prepend(views(tokens@), lex_all(s, lexer.cursor())),
        decreases s.len() - lexer.cursor(),
    {
        let ghost p = lexer.cursor();
        let ghost before = tokens@;
        proof {
            lemma_scan_advances(s, p);
        }
        match lexer.next_token() {
            Err(e) => {
                return Err(e);
            },
            Ok(t) => {
                let end = t.is_end_of_input();
                tokens.push(t);
                proof {
                    assert(views(tokens@) =~= views(before) + seq![t@]);
                    if end {
                        assert(views(before) + seq![t@] =~= views(tokens@));
                    } else {
                        lemma_prepend_twice(views(before), seq![t@], lex_all(s, lexer.cursor()));
                    }
                }
                if end {
                    return Ok(tokens);
                }
            },
        }
    }
}

proof fn lemma_prepend_twice(
    a: Seq<TokenView>,
    b: Seq<TokenView>,
    rest: Result<Seq<TokenView>, LexError>,
)
    ensures
        prepend(a, prepend(b, rest)) == prepend(a + b, rest),
{
    if let Ok(r) = rest {
        assert(a + (b + r) =~= (a + b) + r);
    }
}

/// The token of a single-byte operator.
fn operator(b: u8) -> (r: Option<Token>)
    ensures
        match r {
            Some(t) => operator_token(b) == Some(t@),
            None => operator_token(b) is None,
        },
{
    if b == PLUS {
        Some(Token::Plus)
    } else if b == MINUS {
        Some(Token::Minus)
    } else if b == ASTERISK {
        Some(Token::Asterisk)
    } else if b == SLASH {
        Some(Token::Slash)
    } else if b == BANG {
        Some(Token::Bang)
    } else if b == EQUAL {
        Some(Token::Equal)
    } else if b == LESS_THAN {
        Some(Token::LessThan)
    } else if b == GREATER_THAN {
        Some(Token::GreaterThan)
    } else if b == LPAREN {
        Some(Token::LParen)
    } else if b == RPAREN {
        Some(Token::RParen)
    } else {
        None
    }
}

} // verus!
