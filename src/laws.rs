//! Properties of the scanning rules that hold for every source text.
use vstd::prelude::*;
use crate::error::LexError;
use crate::grammar::{
    digits_end, digits_value, is_blank, is_digit, is_letter, is_operator, lemma_digits_end, lemma_docstring_end,
    lemma_end_of_line, lemma_letters_end, lemma_scan_advances, letters_end, end_of_line, docstring_end, lex_all,
    operator_token, print_word, scan, str_word, text_of, triple_quote, word_at, HASH, QUOTE,
};
use crate::token::{ConversionView, TokenView};

verus! {

/// The tokens of a text made of operator characters alone: one operator token
/// for each byte, in order.
pub open spec fn operator_tokens(s: Seq<u8>) -> Seq<TokenView> {
    s.map_values(|b: u8| operator_token(b)->Some_0)
}

/// A text made of operator characters alone gives, for each byte in order, the
/// operator token of that byte, and then `EndOfInput`.
pub proof fn lemma_operators_map_one_to_one(s: Seq<u8>)
    requires
        forall|i: int| 0 <= i < s.len() ==> is_operator(#[trigger] s[i]),
    ensures
        lex_all(s, 0) == Ok::<Seq<TokenView>, LexError>(
            operator_tokens(s).push(TokenView::EndOfInput),
        ),
{
    lemma_operators_from(s, 0);
    assert(s.subrange(0, s.len() as int) =~= s);
}

proof fn lemma_operators_from(s: Seq<u8>, pos: int)
    requires
        0 <= pos <= s.len(),
        forall|i: int| 0 <= i < s.len() ==> is_operator(#[trigger] s[i]),
    ensures
        lex_all(s, pos) == Ok::<Seq<TokenView>, LexError>(
            operator_tokens(s.subrange(pos, s.len() as int)).push(TokenView::EndOfInput),
        ),
    decreases s.len() - pos,
{
    let rest = s.subrange(pos, s.len() as int);
    if pos == s.len() {
        assert(operator_tokens(rest).push(TokenView::EndOfInput) =~= seq![TokenView::EndOfInput]);
    } else {
        assert(is_operator(s[pos]));
        assert(!word_at(s, pos, triple_quote())) by {
            if word_at(s, pos, triple_quote()) {
                assert(s.subrange(pos, pos + 3)[0] == QUOTE);
            }
        }
        lemma_scan_advances(s, pos);
        lemma_operators_from(s, pos + 1);
        assert(operator_tokens(rest).push(TokenView::EndOfInput) =~= seq![
            operator_token(s[pos])->Some_0,
        ] + operator_tokens(s.subrange(pos + 1, s.len() as int)).push(TokenView::EndOfInput));
    }
}

/// Once scanning gives `EndOfInput`, scanning again from where the cursor rests
/// gives `EndOfInput` again and leaves the cursor there.
pub proof fn lemma_end_of_input_repeats(s: Seq<u8>, pos: int)
    requires
        0 <= pos <= s.len(),
        scan(s, pos).0 == Ok::<TokenView, LexError>(TokenView::EndOfInput),
    ensures
        scan(s, scan(s, pos).1) == (Ok::<TokenView, LexError>(TokenView::EndOfInput), scan(
            s,
            pos,
        ).1),
{
    lemma_scan_advances(s, pos);
}

/// `print` is read by its letters alone: whatever follows it is left for the
/// next token.
pub proof fn lemma_print_ignores_what_follows(rest: Seq<u8>)
    ensures
        scan(print_word() + rest, 0) == (Ok::<TokenView, LexError>(TokenView::Print), 5int),
{
    let s = print_word() + rest;
    assert(s.subrange(0, 5) =~= print_word());
    assert(!word_at(s, 0, triple_quote()));
}

/// `str` gives the int-to-string conversion whatever follows it, which is left
/// for the next token.
pub proof fn lemma_str_ignores_what_follows(rest: Seq<u8>)
    ensures
        scan(str_word() + rest, 0) == (Ok::<TokenView, LexError>(
            TokenView::TypeConversion(ConversionView::IntToString),
        ), 3int),
{
    let s = str_word() + rest;
    assert(s.subrange(0, 3) =~= str_word());
    assert(!word_at(s, 0, triple_quote()));
}

/// Letters and digits never mix within one token: an identifier is read from a
/// run of letters that ends at the first byte that is no letter, and a number
/// from a run of digits that ends at the first byte that is no digit.
pub proof fn lemma_letters_and_digits_do_not_mix(s: Seq<u8>, pos: int)
    requires
        0 <= pos <= s.len(),
    ensures
        scan(s, pos).0 matches Ok(TokenView::Identifier(t)) ==> exists|start: int|
            #![trigger text_of(s, start, scan(s, pos).1)]
            pos <= start < scan(s, pos).1 && (forall|k: int|
                start <= k < scan(s, pos).1 ==> is_letter(#[trigger] s[k])) && (scan(s, pos).1
                == s.len() || !is_letter(s[scan(s, pos).1])) && t == text_of(
                s,
                start,
                scan(s, pos).1,
            ),
        scan(s, pos).0 matches Ok(TokenView::Number(n)) ==> exists|start: int|
            #![trigger s.subrange(start, scan(s, pos).1)]
            pos <= start < scan(s, pos).1 && (forall|k: int|
                start <= k < scan(s, pos).1 ==> is_digit(#[trigger] s[k])) && (scan(s, pos).1
                == s.len() || !is_digit(s[scan(s, pos).1])) && n == digits_value(
                s.subrange(start, scan(s, pos).1),
            ),
    decreases s.len() - pos,
{
    if pos < s.len() {
        if is_blank(s[pos]) {
            lemma_letters_and_digits_do_not_mix(s, pos + 1);
        } else if s[pos] == HASH {
            lemma_end_of_line(s, pos + 1);
            lemma_letters_and_digits_do_not_mix(s, end_of_line(s, pos + 1));
        } else if word_at(s, pos, triple_quote()) {
            lemma_docstring_end(s, pos + 3);
            if let Some(next) = docstring_end(s, pos + 3) {
                lemma_letters_and_digits_do_not_mix(s, next);
            }
        } else if is_digit(s[pos]) {
            lemma_digits_end(s, pos);
            if scan(s, pos).0 is Ok {
                assert(s.subrange(pos, scan(s, pos).1) == s.subrange(pos, digits_end(s, pos)));
            }
        } else if is_letter(s[pos]) {
            lemma_letters_end(s, pos);
            if scan(s, pos).0 matches Ok(TokenView::Identifier(_)) {
                assert(text_of(s, pos, scan(s, pos).1) == text_of(s, pos, letters_end(s, pos)));
            }
        }
    }
}

} // verus!
