//! Splitting a line into whitespace-separated words.

use vstd::prelude::*;
use vstd::string::StringSliceAdditionalSpecFns;
use vstd::utf8::{
    encode_utf8, encode_utf8_valid_utf8, is_char_boundary, is_char_boundary_iff_not_is_continuation_byte,
    is_char_boundary_start_end_of_seq, is_continuation_byte, valid_utf8, valid_utf8_split,
};

verus! {

/// Whether a byte is ASCII whitespace: space, or one of the control
/// characters tab through carriage return.
pub open spec fn is_space(b: u8) -> bool {
    b == 0x20 || (0x09 <= b && b <= 0x0d)
}

/// The length of the maximal non-space prefix.
pub open spec fn word_len(bytes: Seq<u8>) -> nat
    decreases bytes.len(),
{
    if bytes.len() == 0 || is_space(bytes[0]) {
        0
    } else {
        1 + word_len(bytes.drop_first())
    }
}

/// The maximal non-space prefix is never longer than the string.
proof fn lemma_word_len_le(bytes: Seq<u8>)
    ensures
        word_len(bytes) <= bytes.len(),
    decreases bytes.len(),
{
    if bytes.len() > 0 && !is_space(bytes[0]) {
        lemma_word_len_le(bytes.drop_first());
    }
}

/// The whitespace-separated words of a byte string, in order: the maximal
/// runs of non-space bytes.
pub open spec fn words_of(bytes: Seq<u8>) -> Seq<Seq<u8>>
    decreases bytes.len(),
    via words_of_decreases
{
    if bytes.len() == 0 {
        Seq::empty()
    } else if is_space(bytes[0]) {
        words_of(bytes.drop_first())
    } else {
        seq![bytes.take(word_len(bytes) as int)] + words_of(bytes.skip(word_len(bytes) as int))
    }
}

#[via_fn]
proof fn words_of_decreases(bytes: Seq<u8>) {
    lemma_word_len_le(bytes);
}

/// Whether a byte is ASCII whitespace.
pub fn is_space_byte(b: u8) -> (r: bool)
    ensures
        r == is_space(b),
{
    b == 0x20 || (0x09 <= b && b <= 0x0d)
}

/// In valid UTF-8, a position whose byte is not a continuation byte is a
/// character boundary.
pub(crate) proof fn lemma_boundary_at(bytes: Seq<u8>, i: int)
    requires
        valid_utf8(bytes),
        0 <= i <= bytes.len(),
        i < bytes.len() ==> !is_continuation_byte(bytes[i]),
    ensures
        is_char_boundary(bytes, i),
{
    broadcast use is_char_boundary_start_end_of_seq;

    if i < bytes.len() {
        is_char_boundary_iff_not_is_continuation_byte(bytes, i);
    }
}

/// In valid UTF-8, the position after an ASCII byte is a character
/// boundary: a one-byte character is followed by the start of the next.
pub(crate) proof fn lemma_boundary_after_ascii(bytes: Seq<u8>, i: int)
    requires
        valid_utf8(bytes),
        0 <= i < bytes.len(),
        bytes[i] <= 0x7f,
    ensures
        is_char_boundary(bytes, i + 1),
{
    broadcast use is_char_boundary_start_end_of_seq;

    lemma_boundary_at(bytes, i);
    valid_utf8_split(bytes, i);
    let rest = bytes.subrange(i, bytes.len() as int);
    assert(rest[0] == bytes[i]);
    assert(vstd::utf8::length_of_first_scalar(rest) == 1);
    let popped = vstd::utf8::pop_first_scalar(rest);
    assert(valid_utf8(popped));
    if i + 1 < bytes.len() {
        assert(popped.len() > 0);
        assert(is_char_boundary(popped, 0));
        is_char_boundary_iff_not_is_continuation_byte(popped, 0);
        assert(popped[0] == bytes[i + 1]);
        lemma_boundary_at(bytes, i + 1);
    }
}

/// Skipping a leading space drops nothing from the words.
proof fn lemma_words_skip_space(bytes: Seq<u8>, i: int)
    requires
        0 <= i < bytes.len(),
        is_space(bytes[i]),
    ensures
        words_of(bytes.skip(i)) == words_of(bytes.skip(i + 1)),
{
    assert(bytes.skip(i)[0] == bytes[i]);
    assert(bytes.skip(i).drop_first() =~= bytes.skip(i + 1));
}

/// A run of non-space bytes out to a space or the end is exactly the next
/// word.
proof fn lemma_words_take_word(bytes: Seq<u8>, i: int, j: int)
    requires
        0 <= i < j <= bytes.len(),
        forall|p: int| i <= p < j ==> !is_space(#[trigger] bytes[p]),
        j < bytes.len() ==> is_space(bytes[j]),
    ensures
        words_of(bytes.skip(i)) == seq![bytes.subrange(i, j)] + words_of(bytes.skip(j)),
{
    lemma_word_len_run(bytes, i, j);
    let rest = bytes.skip(i);
    assert(!is_space(rest[0]));
    assert(rest.take((j - i) as int) =~= bytes.subrange(i, j));
    assert(rest.skip((j - i) as int) =~= bytes.skip(j));
}

/// The maximal non-space prefix of the suffix at `i` runs exactly to `j`.
proof fn lemma_word_len_run(bytes: Seq<u8>, i: int, j: int)
    requires
        0 <= i <= j <= bytes.len(),
        forall|p: int| i <= p < j ==> !is_space(#[trigger] bytes[p]),
        j < bytes.len() ==> is_space(bytes[j]),
    ensures
        word_len(bytes.skip(i)) == j - i,
    decreases j - i,
{
    let rest = bytes.skip(i);
    if i == j {
        if j < bytes.len() {
            assert(rest[0] == bytes[j]);
        }
    } else {
        assert(rest[0] == bytes[i]);
        assert(rest.drop_first() =~= bytes.skip(i + 1));
        lemma_word_len_run(bytes, i + 1, j);
    }
}

/// Split a line into its whitespace-separated words: maximal runs of
/// non-space bytes, in order, each handed back as an owned string.
pub fn split_words(s: &str) -> (words: Vec<String>)
    ensures
        words@.map_values(|w: String| encode_utf8(w@)) == words_of(s.spec_bytes()),
{
    broadcast use encode_utf8_valid_utf8;

    let ghost bytes = s.spec_bytes();
    let b = s.as_bytes();
    let n = b.len();
    let mut words: Vec<String> = Vec::new();
    let mut i: usize = 0;
    proof {
        assert(valid_utf8(bytes));
        assert(bytes.skip(0) =~= bytes);
    }
    while i < n
        invariant
            i <= n,
            n == bytes.len(),
            b@ == bytes,
            bytes == s.spec_bytes(),
            valid_utf8(bytes),
            words@.map_values(|w: String| encode_utf8(w@)) + words_of(bytes.skip(i as int))
                == words_of(bytes),
            i == n || i == 0 || is_space(bytes[i as int - 1]) || is_space(bytes[i as int]),
        decreases n - i,
    {
        if is_space_byte(b[i]) {
            proof {
                lemma_words_skip_space(bytes, i as int);
            }
            i += 1;
        } else {
            let start = i;
            let mut j = i + 1;
            while j < n
                invariant
                    start < j <= n,
                    n == bytes.len(),
                    b@ == bytes,
                    forall|p: int| start <= p < j ==> !is_space(#[trigger] bytes[p]),
                ensures
                    start < j <= n,
                    forall|p: int| start <= p < j ==> !is_space(#[trigger] bytes[p]),
                    j < n ==> is_space(bytes[j as int]),
                decreases n - j,
            {
                if is_space_byte(b[j]) {
                    break;
                }
                j += 1;
            }
            proof {
                // both cut positions are character boundaries
                if start == 0 {
                    broadcast use is_char_boundary_start_end_of_seq;

                } else {
                    lemma_boundary_after_ascii(bytes, start as int - 1);
                }
                lemma_boundary_at(bytes, j as int);
            }
            let (_, tail) = s.split_at(start);
            proof {
                valid_utf8_split(bytes, start as int);
                assert(tail.spec_bytes() =~= bytes.subrange(start as int, n as int));
                if (j as int) < n {
                    assert(tail.spec_bytes()[j - start] == bytes[j as int]);
                    lemma_boundary_at(tail.spec_bytes(), j as int - start as int);
                } else {
                    lemma_boundary_at(tail.spec_bytes(), j as int - start as int);
                }
            }
            let (word_str, _) = tail.split_at(j - start);
            let word = word_str.to_owned();
            proof {
                assert(encode_utf8(word@) == word_str.spec_bytes());
                assert(word_str.spec_bytes() =~= bytes.subrange(start as int, j as int));
                lemma_words_take_word(bytes, start as int, j as int);
                assert(words@.push(word).map_values(|w: String| encode_utf8(w@)) =~= words@
                    .map_values(|w: String| encode_utf8(w@)).push(encode_utf8(word@)));
                assert(words@.map_values(|w: String| encode_utf8(w@)).push(encode_utf8(word@))
                    + words_of(bytes.skip(j as int)) =~= words@.map_values(
                    |w: String| encode_utf8(w@),
                ) + words_of(bytes.skip(start as int)));
            }
            words.push(word);
            i = j;
        }
    }
    proof {
        assert(bytes.skip(n as int) =~= Seq::<u8>::empty());
        assert(words_of(Seq::<u8>::empty()) =~= Seq::<Seq<u8>>::empty());
        assert(words@.map_values(|w: String| encode_utf8(w@)) + Seq::<Seq<u8>>::empty() =~= words@
            .map_values(|w: String| encode_utf8(w@)));
    }
    words
}

} // verus!
