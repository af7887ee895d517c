//! Conversion of byte-offset intervals into character-offset spans.
//!
//! A pattern matcher that works over a text's UTF-8 bytes reports match
//! boundaries in byte units.  Spans are stored in character units so that
//! they stay meaningful however many bytes each character occupies.  The
//! conversion counts the characters consumed up to a byte offset; it relies
//! on the matcher's guarantee that every reported offset falls on a
//! character boundary, so it only needs to count, never to realign.

use crate::span::Span;
use vstd::prelude::*;
use vstd::string::{StrSliceExecFns, StringSliceAdditionalSpecFns};
use vstd::utf8::{
    decode_utf8, encode_utf8, is_char_boundary, is_continuation_byte, length_of_first_scalar,
    pop_first_scalar, valid_utf8,
};
use vstd::utf8::{
    decode_utf8_split, encode_utf8_decode_utf8, encode_utf8_valid_utf8,
    is_char_boundary_iff_not_is_continuation_byte, is_char_boundary_start_end_of_seq,
    valid_utf8_split,
};

verus! {

/// Number of characters that start within the first `n` bytes: every byte
/// that is not a UTF-8 continuation byte begins a character.
pub open spec fn char_count(bytes: Seq<u8>, n: int) -> nat
    decreases n,
{
    if n <= 0 {
        0
    } else {
        char_count(bytes, n - 1) + (if is_continuation_byte(bytes[n - 1]) {
            0nat
        } else {
            1nat
        })
    }
}

/// Counting characters is monotone in the byte offset.
proof fn lemma_char_count_mono(bytes: Seq<u8>, m: int, n: int)
    requires
        m <= n,
    ensures
        char_count(bytes, m) <= char_count(bytes, n),
    decreases n - m,
{
    if m < n {
        lemma_char_count_mono(bytes, m, n - 1);
    }
}

/// The count up to `n` only looks at the first `n` bytes.
proof fn lemma_char_count_agree(a: Seq<u8>, b: Seq<u8>, n: int)
    requires
        forall|i: int| 0 <= i < n ==> a[i] == b[i],
    ensures
        char_count(a, n) == char_count(b, n),
    decreases n,
{
    if n > 0 {
        lemma_char_count_agree(a, b, n - 1);
    }
}

/// Counting distributes over splitting the byte sequence at offset `k`.
proof fn lemma_char_count_skip(bytes: Seq<u8>, k: int, m: int)
    requires
        0 <= k,
        0 <= m,
        k + m <= bytes.len(),
    ensures
        char_count(bytes, k + m) == char_count(bytes, k) + char_count(bytes.skip(k), m),
    decreases m,
{
    if m > 0 {
        lemma_char_count_skip(bytes, k, m - 1);
        assert(bytes.skip(k)[m - 1] == bytes[k + m - 1]);
    }
}

/// Over a whole valid UTF-8 sequence, the continuation-byte count agrees
/// with the number of characters the sequence decodes to.
proof fn lemma_decode_len(bytes: Seq<u8>)
    requires
        valid_utf8(bytes),
    ensures
        decode_utf8(bytes).len() == char_count(bytes, bytes.len() as int),
    decreases bytes.len(),
{
    if bytes.len() != 0 {
        let k = length_of_first_scalar(bytes);
        let rest = pop_first_scalar(bytes);
        assert(1 <= k <= bytes.len());
        assert(!is_continuation_byte(bytes[0]));
        assert(char_count(bytes, k) == 1) by {
            assert(forall|i: int| 1 <= i < k ==> is_continuation_byte(bytes[i]));
            assert(char_count(bytes, 1) == 1) by {
                reveal_with_fuel(char_count, 3);
            }
            lemma_char_count_ones(bytes, 1, k);
        }
        lemma_decode_len(rest);
        lemma_char_count_skip(bytes, k, bytes.len() - k);
        assert(rest =~= bytes.skip(k));
    }
}

/// Continuation bytes in `[m, n)` leave the count unchanged.
proof fn lemma_char_count_ones(bytes: Seq<u8>, m: int, n: int)
    requires
        0 <= m <= n,
        forall|i: int| m <= i < n ==> is_continuation_byte(bytes[i]),
    ensures
        char_count(bytes, n) == char_count(bytes, m),
    decreases n - m,
{
    if m < n {
        lemma_char_count_ones(bytes, m, n - 1);
    }
}

/// On the encoding of `text`, the character count up to a boundary byte
/// offset `n` is the number of characters the prefix decodes to, and never
/// exceeds the character length of `text`.
proof fn lemma_char_count_boundary(text: Seq<char>, n: int)
    requires
        0 <= n <= encode_utf8(text).len(),
        is_char_boundary(encode_utf8(text), n),
    ensures
        char_count(encode_utf8(text), n) == decode_utf8(
            encode_utf8(text).subrange(0, n),
        ).len(),
        char_count(encode_utf8(text), n) <= text.len(),
{
    let bytes = encode_utf8(text);
    encode_utf8_valid_utf8(text);
    encode_utf8_decode_utf8(text);
    valid_utf8_split(bytes, n);
    decode_utf8_split(bytes, n);
    let pre = bytes.subrange(0, n);
    lemma_decode_len(pre);
    lemma_char_count_agree(pre, bytes, n);
}

/// A byte-offset interval `[a, b)` with both ends on character boundaries
/// converts to the character-offset interval spanning exactly the characters
/// the matched bytes decode to.
pub proof fn lemma_char_interval(text: Seq<char>, a: int, b: int)
    requires
        0 <= a <= b <= encode_utf8(text).len(),
        is_char_boundary(encode_utf8(text), a),
        is_char_boundary(encode_utf8(text), b),
    ensures
        char_count(encode_utf8(text), a) <= char_count(encode_utf8(text), b) <= text.len(),
        text.subrange(
            char_count(encode_utf8(text), a) as int,
            char_count(encode_utf8(text), b) as int,
        ) == decode_utf8(encode_utf8(text).subrange(a, b)),
{
    let bytes = encode_utf8(text);
    let ca = char_count(bytes, a) as int;
    let cb = char_count(bytes, b) as int;
    encode_utf8_valid_utf8(text);
    encode_utf8_decode_utf8(text);
    lemma_char_count_mono(bytes, a, b);
    lemma_char_count_boundary(text, a);
    lemma_char_count_boundary(text, b);
    let pre_a = bytes.subrange(0, a);
    let pre_b = bytes.subrange(0, b);
    let mid = bytes.subrange(a, b);
    valid_utf8_split(bytes, a);
    valid_utf8_split(bytes, b);
    decode_utf8_split(bytes, a);
    decode_utf8_split(bytes, b);
    // The prefix up to b splits at a into the prefix up to a and the matched bytes.
    assert(is_char_boundary(pre_b, a)) by {
        if a == b {
            is_char_boundary_start_end_of_seq(pre_b);
        } else if a == 0 {
            is_char_boundary_start_end_of_seq(pre_b);
        } else {
            is_char_boundary_iff_not_is_continuation_byte(bytes, a);
            assert(pre_b[a] == bytes[a]);
            is_char_boundary_iff_not_is_continuation_byte(pre_b, a);
        }
    }
    valid_utf8_split(pre_b, a);
    decode_utf8_split(pre_b, a);
    assert(pre_b.subrange(0, a) =~= pre_a);
    assert(pre_b.subrange(a, b) =~= mid);
    // So decode(pre_b) == decode(pre_a) + decode(mid), giving cb == ca + |decode(mid)|.
    let suf_b = bytes.subrange(b, bytes.len() as int);
    // text == decode(pre_a) + decode(mid) + decode(suf_b)
    assert(text =~= decode_utf8(pre_a) + decode_utf8(mid) + decode_utf8(suf_b));
    assert(text.subrange(ca, cb) =~= decode_utf8(mid));
}

/// Counts the characters that start within the first `n` bytes.
fn count_chars_upto(bytes: &Vec<u8>, n: usize) -> (c: usize)
    requires
        n <= bytes@.len(),
    ensures
        c == char_count(bytes@, n as int),
{
    let mut c: usize = 0;
    let mut i: usize = 0;
    while i < n
        invariant
            i <= n <= bytes@.len(),
            c == char_count(bytes@, i as int),
            c <= i,
        decreases n - i,
    {
        let b = bytes[i];
        if !(0x80 <= b && b <= 0xbf) {
            c = c + 1;
        }
        i = i + 1;
    }
    c
}

/// Converts the byte-offset interval `[byte_start, byte_end)` over `text`'s
/// UTF-8 encoding into a span of character offsets.  Both ends must fall on
/// character boundaries, as a matcher working over the encoded bytes
/// guarantees; the resulting span covers exactly the characters that the
/// matched bytes decode to.
pub fn char_span(text: &str, byte_start: usize, byte_end: usize) -> (s: Span)
    requires
        byte_start <= byte_end <= text.spec_bytes().len(),
        is_char_boundary(text.spec_bytes(), byte_start as int),
        is_char_boundary(text.spec_bytes(), byte_end as int),
    ensures
        s.start == char_count(encode_utf8(text@), byte_start as int),
        s.end == char_count(encode_utf8(text@), byte_end as int),
        s.valid(text@.len()),
        text@.subrange(s.start as int, s.end as int) == decode_utf8(
            encode_utf8(text@).subrange(byte_start as int, byte_end as int),
        ),
{
    let bytes = text.as_bytes_vec();
    let start = count_chars_upto(&bytes, byte_start);
    let end = count_chars_upto(&bytes, byte_end);
    proof {
        lemma_char_interval(text@, byte_start as int, byte_end as int);
    }
    Span { start, end }
}

} // verus!
