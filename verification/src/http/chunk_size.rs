//! The size line of a chunk is read in base 16.
use vstd::prelude::*;
use vstd::utf8::*;
use crate::text::{fold_digits, digit_value, spec_parse_int};
use super::io::{Res, Class, scan, lemma_scan, spec_skip_line, spec_read_n, bytes_as_chars, in_class};
use super::parse::{spec_chunks, chunked_end};
use super::stable::{lemma_scan_ended, lemma_skip_trailer_ended};

verus! {

/// Whether `c` is the ASCII code of a hex digit, `0` to `9` or `a` to `f`
/// in either case.
pub open spec fn hex_byte(c: u8) -> bool {
    0x30 <= c <= 0x39 || 0x61 <= c <= 0x66 || 0x41 <= c <= 0x46
}

/// The number a hex digit byte stands for.
pub open spec fn hex_byte_number(c: u8) -> int {
    if 0x30 <= c <= 0x39 {
        c - 0x30
    } else if 0x61 <= c <= 0x66 {
        c - 0x61 + 10
    } else {
        c - 0x41 + 10
    }
}

/// The number that the hex digits `s` write, after the digits read so far
/// came to `acc`.
pub open spec fn hex_text_number_from(acc: int, s: Seq<u8>) -> int
    decreases s.len(),
{
    if s.len() == 0 {
        acc
    } else {
        hex_text_number_from(16 * acc + hex_byte_number(s[0]), s.drop_first())
    }
}

/// The number that the hex digits `s` write.
pub open spec fn hex_text_number(s: Seq<u8>) -> int {
    hex_text_number_from(0, s)
}

/// Reading hex digits in base 16 from `acc` gives the number they write,
/// where it fits under `max`.
proof fn lemma_fold_hex(s: Seq<u8>, acc: int, max: int)
    requires
        0 <= acc,
        forall|k: int| 0 <= k < s.len() ==> hex_byte(#[trigger] s[k]),
        hex_text_number_from(acc, s) <= max,
    ensures
        hex_text_number_from(acc, s) >= acc,
        fold_digits(bytes_as_chars(s), 16, acc, false, 0, max) == Ok::<int, crate::text::IntErrorKind>(
            hex_text_number_from(acc, s),
        ),
    decreases s.len(),
{
    let cs = bytes_as_chars(s);
    if s.len() > 0 {
        let c = cs[0];
        assert(c as int == s[0] as int);
        assert(hex_byte(s[0]));
        assert(digit_value(c, 16) == Some(hex_byte_number(s[0])));
        let next = 16 * acc + hex_byte_number(s[0]);
        assert(cs.drop_first() =~= bytes_as_chars(s.drop_first()));
        lemma_fold_hex(s.drop_first(), next, max);
    }
}

/// The bytes of ASCII text decode to its characters.
proof fn lemma_ascii_decode(s: Seq<u8>)
    requires
        forall|k: int| 0 <= k < s.len() ==> #[trigger] s[k] < 0x80,
    ensures
        valid_utf8(s),
        decode_utf8(s) == bytes_as_chars(s),
{
    let cs = bytes_as_chars(s);
    assert(is_ascii_chars(cs));
    is_ascii_chars_encode_utf8(cs);
    assert(encode_utf8(cs) =~= s);
    encode_utf8_valid_utf8(cs);
    encode_utf8_decode_utf8(cs);
}

/// A chunked body whose size line is the hex text of `n` (in either case,
/// `n` greater than 0), then a line end, then `n` bytes `data`, then a line
/// end, reads as exactly `data`, whatever came before it and whatever
/// follows, once the stream has ended.
pub proof fn law_chunk_size_is_hex(pre: Seq<u8>, digits: Seq<u8>, data: Seq<u8>, rest: Seq<u8>)
    requires
        digits.len() > 0,
        forall|k: int| 0 <= k < digits.len() ==> hex_byte(#[trigger] digits[k]),
        data.len() == hex_text_number(digits),
        0 < data.len() <= usize::MAX,
    ensures
        spec_chunks(
            pre + digits + seq![0x0du8, 0x0au8] + data + seq![0x0du8, 0x0au8] + rest,
            true,
            pre.len() as int,
            Seq::empty(),
        ) matches Res::Done(body, _) && body == data,
{
    let b = pre + digits + seq![0x0du8, 0x0au8] + data + seq![0x0du8, 0x0au8] + rest;
    let i = pre.len() as int;
    let le = i + digits.len();
    let s = le + 2;
    let e = s + data.len();
    assert(b.subrange(i, le) =~= digits);
    assert forall|k: int| i <= k < le implies #[trigger] in_class(Class::NotSpaceCr, b[k]) by {
        assert(b[k] == digits[k - i]);
        assert(hex_byte(digits[k - i]));
    }
    assert(b[le] == 0x0du8);
    assert(b[le + 1] == 0x0au8);
    assert(b.subrange(s, e) =~= data);
    assert(b[e] == 0x0du8);
    assert(b[e + 1] == 0x0au8);
    // The size line.
    lemma_scan_ended(b, i, Class::NotSpaceCr);
    lemma_scan(b, true, i, Class::NotSpaceCr);
    let found = scan(b, true, i, Class::NotSpaceCr).unwrap();
    if found < le {
        assert(in_class(Class::NotSpaceCr, b[found]));
    }
    if found > le {
        assert(in_class(Class::NotSpaceCr, b[le]));
    }
    assert(found == le);
    assert(spec_skip_line(b, true, le + 1) == Some(le + 2));
    assert(spec_skip_line(b, true, le) == Some(s));
    // Its digits.
    assert forall|k: int| 0 <= k < digits.len() implies #[trigger] digits[k] < 0x80 by {
        assert(hex_byte(digits[k]));
    }
    lemma_ascii_decode(digits);
    lemma_fold_hex(digits, 0, usize::MAX as int);
    let cs = bytes_as_chars(digits);
    assert(cs[0] as int == digits[0] as int);
    assert(hex_byte(digits[0]));
    assert(spec_parse_int(cs, 16, false, 0, usize::MAX as int) == Ok::<int, crate::text::IntErrorKind>(
        data.len() as int,
    ));
    assert(spec_read_n(b, true, s, data.len() as int) == Res::Done(data, e));
    // After the data, the line end ends the chunks.
    assert(scan(b, true, e, Class::NotSpaceCr) == Some(e));
    assert(spec_skip_line(b, true, e + 1) == Some(e + 2));
    assert(spec_skip_line(b, true, e) == Some(e + 2));
    assert(b.subrange(e, e) =~= Seq::<u8>::empty());
    lemma_skip_trailer_ended(b, e + 2);
    assert(Seq::<u8>::empty() + data =~= data);
    assert(spec_chunks(b, true, e, data) == chunked_end(b, true, e + 2, data));
}

} // verus!
