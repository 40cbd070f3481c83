//! Facts about UTF-8 text that the chunk cursor and the run classifier rest on.

use vstd::prelude::*;
use vstd::utf8::*;

verus! {

/// The five bytes that end a run of plain data: NUL, CR, `&`, `-` and `<`.
pub open spec fn is_trigger_byte(b: u8) -> bool {
    b == 0x00 || b == 0x0D || b == 0x26 || b == 0x2D || b == 0x3C
}

/// The five characters that the tokenizer must see one at a time.
pub open spec fn is_trigger(c: char) -> bool {
    c == '\0' || c == '\r' || c == '&' || c == '-' || c == '<'
}

/// Number of leading bytes of `bytes` before the first trigger byte.
pub open spec fn span_of(bytes: Seq<u8>) -> nat
    decreases bytes.len(),
{
    if bytes.len() == 0 || is_trigger_byte(bytes[0]) {
        0
    } else {
        1 + span_of(bytes.drop_first())
    }
}

/// Number of leading characters of `s` before the first trigger character.
pub open spec fn data_len(s: Seq<char>) -> nat
    decreases s.len(),
{
    if s.len() == 0 || is_trigger(s[0]) {
        0
    } else {
        1 + data_len(s.drop_first())
    }
}

/// `span_of` is the one index that has only ordinary bytes before it and
/// either ends the sequence or holds a trigger byte.
pub proof fn lemma_span_of_unique(bytes: Seq<u8>, n: int)
    requires
        0 <= n <= bytes.len(),
        forall|i: int| 0 <= i < n ==> !is_trigger_byte(#[trigger] bytes[i]),
        n < bytes.len() ==> is_trigger_byte(bytes[n]),
    ensures
        span_of(bytes) == n,
    decreases n,
{
    if n > 0 {
        let rest = bytes.drop_first();
        assert forall|i: int| 0 <= i < n - 1 implies !is_trigger_byte(#[trigger] rest[i]) by {
            assert(rest[i] == bytes[i + 1]);
        }
        lemma_span_of_unique(rest, n - 1);
    }
}

/// A scalar below 0x80 is encoded as the one byte of the same value.
pub proof fn lemma_encode_scalar_narrow(v: u32)
    requires
        has_width_1_encoding(v),
    ensures
        encode_scalar(v) == seq![v as u8],
        v as u8 == v,
{
    assert((v & 0x7F) as u8 == v as u8 && v as u8 == v) by (bit_vector)
        requires
            v <= 0x7F,
    ;
}

/// Every byte in the encoding of a scalar from 0x80 on has its top bit set.
pub proof fn lemma_encode_scalar_wide(v: u32)
    requires
        is_scalar(v),
        !has_width_1_encoding(v),
    ensures
        forall|i: int| 0 <= i < encode_scalar(v).len() ==> #[trigger] encode_scalar(v)[i] >= 0x80,
{
    assert(leading_byte_width_2(v) >= 0x80 && leading_byte_width_3(v) >= 0x80
        && leading_byte_width_4(v) >= 0x80 && last_continuation_byte(v) >= 0x80
        && second_last_continuation_byte(v) >= 0x80 && third_last_continuation_byte(v) >= 0x80)
        by (bit_vector);
}

/// The encoding of a trigger character is the trigger byte of the same
/// value; no byte in the encoding of any other character is a trigger byte.
pub proof fn lemma_encode_scalar_trigger(c: char)
    ensures
        1 <= encode_scalar(c as u32).len() <= 4,
        is_trigger(c) ==> encode_scalar(c as u32).len() == 1 && is_trigger_byte(
            encode_scalar(c as u32)[0],
        ),
        !is_trigger(c) ==> forall|i: int|
            0 <= i < encode_scalar(c as u32).len() ==> !is_trigger_byte(
                #[trigger] encode_scalar(c as u32)[i],
            ),
{
    let v = c as u32;
    char_is_scalar(c);
    if has_width_1_encoding(v) {
        lemma_encode_scalar_narrow(v);
    } else {
        lemma_encode_scalar_wide(v);
    }
}

/// Encoding distributes over concatenation.
pub proof fn lemma_encode_concat(a: Seq<char>, b: Seq<char>)
    ensures
        encode_utf8(a + b) == encode_utf8(a) + encode_utf8(b),
    decreases a.len(),
{
    if a.len() == 0 {
        assert(a + b =~= b);
        assert(encode_utf8(a) + encode_utf8(b) =~= encode_utf8(b));
    } else {
        assert((a + b).drop_first() =~= a.drop_first() + b);
        lemma_encode_concat(a.drop_first(), b);
        assert(encode_utf8(a + b) =~= encode_utf8(a) + encode_utf8(b));
    }
}

/// Only the empty text has an empty encoding.
pub proof fn lemma_encode_empty(s: Seq<char>)
    ensures
        encode_utf8(s).len() == 0 <==> s.len() == 0,
        encode_utf8(s).len() >= s.len(),
    decreases s.len(),
{
    if s.len() > 0 {
        lemma_encode_scalar_trigger(s[0]);
        lemma_encode_empty(s.drop_first());
    }
}

/// Two texts with the same encoding are the same text.
pub proof fn lemma_encode_injective(a: Seq<char>, b: Seq<char>)
    requires
        encode_utf8(a) == encode_utf8(b),
    ensures
        a == b,
{
    encode_utf8_decode_utf8(a);
    encode_utf8_decode_utf8(b);
}

/// A position from which the rest of a valid encoding is itself the
/// encoding of some text lies on a character boundary.
pub proof fn lemma_boundary_from_suffix(bytes: Seq<u8>, i: int, rest: Seq<char>)
    requires
        valid_utf8(bytes),
        0 <= i <= bytes.len(),
        bytes.subrange(i, bytes.len() as int) == encode_utf8(rest),
    ensures
        is_char_boundary(bytes, i),
        decode_utf8(bytes.subrange(i, bytes.len() as int)) == rest,
{
    encode_utf8_decode_utf8(rest);
    if i == bytes.len() {
        is_char_boundary_start_end_of_seq(bytes);
    } else {
        lemma_encode_empty(rest);
        encode_utf8_first_scalar(rest);
        assert(bytes[i] == bytes.subrange(i, bytes.len() as int)[0]);
        is_char_boundary_iff_is_leading_byte(bytes, i);
    }
}

/// From a character boundary on, a valid encoding is the encoding of the
/// text that it decodes to.
pub proof fn lemma_suffix_at_boundary(bytes: Seq<u8>, i: int)
    requires
        valid_utf8(bytes),
        is_char_boundary(bytes, i),
    ensures
        0 <= i <= bytes.len(),
        encode_utf8(decode_utf8(bytes.subrange(i, bytes.len() as int))) == bytes.subrange(
            i,
            bytes.len() as int,
        ),
{
    valid_utf8_split(bytes, i);
    decode_utf8_encode_utf8(bytes.subrange(i, bytes.len() as int));
}

/// When every byte of `a` is ordinary, the span of `a + b` is all of `a`
/// and then the span of `b`.
pub proof fn lemma_span_of_concat(a: Seq<u8>, b: Seq<u8>)
    requires
        forall|i: int| 0 <= i < a.len() ==> !is_trigger_byte(#[trigger] a[i]),
    ensures
        span_of(a + b) == a.len() + span_of(b),
    decreases a.len(),
{
    if a.len() == 0 {
        assert(a + b =~= b);
    } else {
        assert((a + b).drop_first() =~= a.drop_first() + b);
        assert forall|i: int| 0 <= i < a.drop_first().len() implies !is_trigger_byte(
            #[trigger] a.drop_first()[i],
        ) by {
            assert(a.drop_first()[i] == a[i + 1]);
        }
        lemma_span_of_concat(a.drop_first(), b);
        assert((a + b)[0] == a[0]);
    }
}

/// A trigger byte behind any ordinary padding is found right behind the
/// padding, whatever follows it.
pub proof fn lemma_span_of_padded(padding: Seq<u8>, trigger: u8, rest: Seq<u8>)
    requires
        forall|i: int| 0 <= i < padding.len() ==> !is_trigger_byte(#[trigger] padding[i]),
        is_trigger_byte(trigger),
    ensures
        span_of(padding + seq![trigger] + rest) == padding.len(),
{
    lemma_span_of_concat(padding, seq![trigger] + rest);
    assert(padding + seq![trigger] + rest =~= padding + (seq![trigger] + rest));
    assert((seq![trigger] + rest)[0] == trigger);
}

/// What `data_len` guarantees of its result.
pub proof fn lemma_data_len_bounds(s: Seq<char>)
    ensures
        data_len(s) <= s.len(),
        forall|i: int| 0 <= i < data_len(s) ==> !is_trigger(#[trigger] s[i]),
        data_len(s) < s.len() ==> is_trigger(s[data_len(s) as int]),
    decreases s.len(),
{
    if s.len() == 0 || is_trigger(s[0]) {
    } else {
        let rest = s.drop_first();
        lemma_data_len_bounds(rest);
        assert forall|i: int| 0 <= i < data_len(s) implies !is_trigger(#[trigger] s[i]) by {
            if i > 0 {
                assert(s[i] == rest[i - 1]);
            }
        }
        if data_len(s) < s.len() {
            assert(s[data_len(s) as int] == rest[data_len(rest) as int]);
        }
    }
}

/// Scanning the bytes of a text finds the same run that scanning its
/// characters finds: every trigger is a single byte below 0x80, and no byte
/// of a longer encoding is below 0x80.
pub proof fn lemma_span_of_encoding(s: Seq<char>)
    ensures
        span_of(encode_utf8(s)) == encode_utf8(s.take(data_len(s) as int)).len(),
    decreases s.len(),
{
    if s.len() == 0 {
        assert(s.take(0) =~= s);
    } else {
        let e = encode_scalar(s[0] as u32);
        let rest = s.drop_first();
        lemma_encode_scalar_trigger(s[0]);
        if is_trigger(s[0]) {
            assert(encode_utf8(s)[0] == e[0]);
            assert(s.take(0) =~= Seq::<char>::empty());
        } else {
            lemma_span_of_concat(e, encode_utf8(rest));
            lemma_span_of_encoding(rest);
            lemma_data_len_bounds(rest);
            let k = data_len(rest) as int;
            assert(s.take(k + 1).drop_first() =~= rest.take(k));
            assert(s.take(k + 1)[0] == s[0]);
        }
    }
}

/// `char::len_utf8`: the number of bytes that the character takes when
/// encoded as UTF-8, which is the length of its scalar's encoding.
pub assume_specification[ char::len_utf8 ](c: char) -> (n: usize)
    ensures
        n == encode_scalar(c as u32).len(),
;

/// `String::push`: appends the character to the end of the string.
pub assume_specification[ String::push ](s: &mut String, ch: char)
    ensures
        final(s)@ == old(s)@.push(ch),
;

/// `String::truncate`: keeps the first `new_len` bytes of the string, or
/// all of it where it is no longer than that. The standard library panics
/// where `new_len` falls inside a character, so such a length is excluded.
pub assume_specification[ String::truncate ](s: &mut String, new_len: usize)
    requires
        new_len <= encode_utf8(old(s)@).len() ==> is_char_boundary(
            encode_utf8(old(s)@),
            new_len as int,
        ),
    ensures
        new_len >= encode_utf8(old(s)@).len() ==> final(s)@ == old(s)@,
        new_len < encode_utf8(old(s)@).len() ==> encode_utf8(final(s)@) == encode_utf8(
            old(s)@,
        ).subrange(0, new_len as int),
;

} // verus!
