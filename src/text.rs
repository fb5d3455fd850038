//! Cutting text out of a UTF-8 source at ASCII delimiters.
use vstd::prelude::*;
use vstd::string::StringSliceAdditionalSpecFns;
use vstd::utf8::*;

verus! {

/// In valid UTF-8, the offset right after an ASCII byte begins a character.
pub proof fn lemma_boundary_after_ascii(bytes: Seq<u8>, i: int)
    requires
        valid_utf8(bytes),
        0 <= i < bytes.len(),
        bytes[i] <= 0x7f,
    ensures
        is_char_boundary(bytes, i + 1),
    decreases bytes.len(),
{
    let n = length_of_first_scalar(bytes);
    let rest = pop_first_scalar(bytes);
    if i < n {
        // Every byte of the first character but its first is a continuation byte.
        assert(i == 0);
        assert(is_char_boundary(rest, 0));
    } else {
        assert(rest[i - n] == bytes[i]);
        lemma_boundary_after_ascii(rest, i - n);
    }
}

/// In valid UTF-8, an ASCII byte is never followed by a continuation byte.
pub proof fn lemma_no_continuation_after_ascii(bytes: Seq<u8>, i: int)
    requires
        valid_utf8(bytes),
        0 <= i,
        i + 1 < bytes.len(),
        bytes[i] <= 0x7f,
    ensures
        !is_continuation_byte(bytes[i + 1]),
{
    lemma_boundary_after_ascii(bytes, i);
    is_char_boundary_iff_not_is_continuation_byte(bytes, i + 1);
}

/// The text that the bytes of `s` from `from` up to `to` encode, where neither
/// end falls inside a character.
pub fn substring(s: &str, from: usize, to: usize) -> (r: String)
    requires
        from <= to <= s.spec_bytes().len(),
        from == s.spec_bytes().len() || !is_continuation_byte(s.spec_bytes()[from as int]),
        to == s.spec_bytes().len() || !is_continuation_byte(s.spec_bytes()[to as int]),
    ensures
        r@ == decode_utf8(s.spec_bytes().subrange(from as int, to as int)),
{
    let ghost bytes = s.spec_bytes();
    proof {
        encode_utf8_valid_utf8(s@);
        is_char_boundary_start_end_of_seq(bytes);
        if from < bytes.len() {
            is_char_boundary_iff_not_is_continuation_byte(bytes, from as int);
        }
        valid_utf8_split(bytes, from as int);
    }
    let (_, tail) = s.split_at(from);
    let ghost t = tail.spec_bytes();
    proof {
        is_char_boundary_start_end_of_seq(t);
        if to < bytes.len() {
            assert(t[to - from] == bytes[to as int]);
            is_char_boundary_iff_not_is_continuation_byte(t, to - from);
        }
    }
    let (mid, _) = tail.split_at(to - from);
    proof {
        assert(mid.spec_bytes() =~= bytes.subrange(from as int, to as int));
        encode_utf8_decode_utf8(mid@);
    }
    mid.to_owned()
}

} // verus!
