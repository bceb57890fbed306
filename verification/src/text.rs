//! Text in commands and replies: hexadecimal numbers, and the parts of a line.
use core::str::Utf8Error;
use vstd::prelude::*;
use vstd::utf8::{
    decode_utf8, encode_utf8, encode_utf8_first_scalar, is_ascii_chars, valid_utf8,
};

verus! {

/// What makes a byte sequence no UTF-8 text.
#[verifier::external_type_specification]
#[verifier::external_body]
pub struct ExUtf8Error(Utf8Error);

/// `core::str::from_utf8` takes exactly the byte sequences that are UTF-8, and gives them back
/// as text.
pub assume_specification[ core::str::from_utf8 ](v: &[u8]) -> (text: Result<&str, Utf8Error>)
    ensures
        text is Ok <==> valid_utf8(v@),
        text matches Ok(s) ==> s@ == decode_utf8(v@),
;

/// Unicode's `White_Space` property.
pub open spec fn white_space(c: char) -> bool {
    ||| '\u{9}' <= c <= '\u{d}'
    ||| c == '\u{20}'
    ||| c == '\u{85}'
    ||| c == '\u{a0}'
    ||| c == '\u{1680}'
    ||| '\u{2000}' <= c <= '\u{200a}'
    ||| c == '\u{2028}'
    ||| c == '\u{2029}'
    ||| c == '\u{202f}'
    ||| c == '\u{205f}'
    ||| c == '\u{3000}'
}

/// A text without the white space at its start.
pub open spec fn trimmed_start(s: Seq<char>) -> Seq<char>
    decreases s.len(),
{
    if s.len() > 0 && white_space(s[0]) {
        trimmed_start(s.drop_first())
    } else {
        s
    }
}

/// A text without the white space at its end.
pub open spec fn trimmed_end(s: Seq<char>) -> Seq<char>
    decreases s.len(),
{
    if s.len() > 0 && white_space(s.last()) {
        trimmed_end(s.drop_last())
    } else {
        s
    }
}

/// A text without the white space at its two ends.
pub open spec fn trimmed(s: Seq<char>) -> Seq<char> {
    trimmed_end(trimmed_start(s))
}

/// `str::trim` takes the white space off both ends.
pub assume_specification[ str::trim ](s: &str) -> (text: &str)
    ensures
        text@ == trimmed(s@),
;

/// A text parted at the last `delimiter` in it, which belongs to neither part.
pub open spec fn parted_at_last(s: Seq<char>, delimiter: char) -> Option<(Seq<char>, Seq<char>)>
    decreases s.len(),
{
    if s.len() == 0 {
        None
    } else if s.last() == delimiter {
        Some((s.drop_last(), Seq::empty()))
    } else {
        match parted_at_last(s.drop_last(), delimiter) {
            Some((before, after)) => Some((before, after.push(s.last()))),
            None => None,
        }
    }
}

/// `str::rsplit_once` parts the text at the last `delimiter`; there is nothing to part where the
/// text does not hold it.
#[verifier::external_body]
pub(crate) fn rsplit_once<'a>(s: &'a str, delimiter: char) -> (parts: Option<(&'a str, &'a str)>)
    ensures
        parts is Some <==> s@.contains(delimiter),
        parts matches Some((before, after)) ==> {
            &&& s@ == before@ + seq![delimiter] + after@
            &&& !after@.contains(delimiter)
        },
{
    s.rsplit_once(delimiter)
}

/// A text is parted at the delimiter behind which there is no other: what stands before it is the
/// first part, and what stands behind it the second, whatever the two hold.
pub proof fn law_text_is_parted_at_the_last_delimiter(
    s: Seq<char>,
    delimiter: char,
    before: Seq<char>,
    after: Seq<char>,
)
    requires
        s == before + seq![delimiter] + after,
        !after.contains(delimiter),
    ensures
        parted_at_last(s, delimiter) == Some((before, after)),
    decreases after.len(),
{
    if after.len() == 0 {
        assert(s.last() == delimiter);
        assert(s.drop_last() =~= before);
        assert(after =~= Seq::<char>::empty());
    } else {
        assert(s.last() == after.last());
        assert(after.contains(after.last()));
        let shorter = after.drop_last();
        assert forall|i: int| 0 <= i < shorter.len() implies shorter[i] != delimiter by {
            assert(after[i] == shorter[i]);
            assert(after.contains(after[i]));
        }
        assert(s.drop_last() =~= before + seq![delimiter] + shorter);
        law_text_is_parted_at_the_last_delimiter(s.drop_last(), delimiter, before, shorter);
        assert(shorter.push(after.last()) =~= after);
    }
}

/// A text without the delimiter is not parted.
pub proof fn law_text_without_delimiter_is_not_parted(s: Seq<char>, delimiter: char)
    requires
        !s.contains(delimiter),
    ensures
        parted_at_last(s, delimiter) is None,
    decreases s.len(),
{
    if s.len() > 0 {
        assert(s.contains(s.last()));
        let shorter = s.drop_last();
        assert forall|i: int| 0 <= i < shorter.len() implies shorter[i] != delimiter by {
            assert(s[i] == shorter[i]);
            assert(s.contains(s[i]));
        }
        law_text_without_delimiter_is_not_parted(shorter, delimiter);
    }
}

/// Parts a text at the last `delimiter` in it.
pub(crate) fn part_at_last<'a>(s: &'a str, delimiter: char) -> (parts: Option<(&'a str, &'a str)>)
    ensures
        match (parts, parted_at_last(s@, delimiter)) {
            (Some((before, after)), Some(expected)) => (before@, after@) == expected,
            (None, None) => true,
            _ => false,
        },
{
    let parts = rsplit_once(s, delimiter);
    proof {
        match parts {
            Some((before, after)) => law_text_is_parted_at_the_last_delimiter(
                s@,
                delimiter,
                before@,
                after@,
            ),
            None => law_text_without_delimiter_is_not_parted(s@, delimiter),
        }
    }
    parts
}

/// Whether a character occurs in a text.
pub(crate) fn contains_char(s: &str, wanted: char) -> (found: bool)
    ensures
        found == s@.contains(wanted),
{
    for c in it: s.chars()
        invariant
            it.seq() == s@,
            forall|i: int| 0 <= i < it.index() ==> s@[i] != wanted,
    {
        if c == wanted {
            assert(s@[it.index()] == wanted);
            return true;
        }
    }
    false
}

/// The hexadecimal digit for a value below sixteen, in lower case.
pub open spec fn hex_digit(value: nat) -> u8 {
    if value < 10 {
        (0x30 + value) as u8
    } else {
        (0x61 + value - 10) as u8
    }
}

/// A number in hexadecimal, in lower case, with no more digits than it needs.
pub open spec fn hex(value: nat) -> Seq<u8>
    decreases value,
{
    if value < 16 {
        seq![hex_digit(value)]
    } else {
        hex(value / 16).push(hex_digit(value % 16))
    }
}

/// The last `width` hexadecimal digits of a number, in lower case.
pub open spec fn padded_hex(value: nat, width: nat) -> Seq<u8>
    decreases width,
{
    if width == 0 {
        Seq::empty()
    } else {
        padded_hex(value / 16, (width - 1) as nat).push(hex_digit(value % 16))
    }
}

/// The value of a hexadecimal digit in either case.
pub open spec fn hex_digit_value(digit: u8) -> Option<nat> {
    if 0x30 <= digit <= 0x39 {
        Some((digit - 0x30) as nat)
    } else if 0x61 <= digit <= 0x66 {
        Some((digit - 0x61 + 10) as nat)
    } else if 0x41 <= digit <= 0x46 {
        Some((digit - 0x41 + 10) as nat)
    } else {
        None
    }
}

/// The value of a run of hexadecimal digits; no digits stand for zero.
pub open spec fn hex_value(digits: Seq<u8>) -> Option<nat>
    decreases digits.len(),
{
    if digits.len() == 0 {
        Some(0)
    } else {
        match (hex_value(digits.drop_last()), hex_digit_value(digits.last())) {
            (Some(high), Some(low)) => Some(16 * high + low),
            _ => None,
        }
    }
}

/// The number that a text stands for: one or more hexadecimal digits, with an optional `+`
/// before them, and no more than 32 bits of value.
pub open spec fn hex_u32(text: Seq<u8>) -> Option<u32> {
    let digits = if text.len() > 0 && text[0] == 0x2b {
        text.skip(1)
    } else {
        text
    };
    match hex_value(digits) {
        Some(value) if digits.len() > 0 && value <= u32::MAX => Some(value as u32),
        _ => None,
    }
}

/// Sixteen to a power.
spec fn pow16(width: nat) -> nat
    decreases width,
{
    if width == 0 {
        1
    } else {
        16 * pow16((width - 1) as nat)
    }
}

proof fn lemma_hex_digit_value(value: nat)
    requires
        value < 16,
    ensures
        hex_digit_value(hex_digit(value)) == Some(value),
        hex_digit(value) < 0x80,
{
}

/// Reading back a number in hexadecimal gives the number.
pub proof fn law_hex_reads_back(value: nat)
    ensures
        hex_value(hex(value)) == Some(value),
        hex(value).len() > 0,
    decreases value,
{
    if value < 16 {
        lemma_hex_digit_value(value);
        let digits = seq![hex_digit(value)];
        assert(digits.drop_last() =~= Seq::<u8>::empty());
        assert(hex_value(digits.drop_last()) == Some(0nat));
    } else {
        law_hex_reads_back(value / 16);
        lemma_hex_digit_value(value % 16);
        assert(hex(value).drop_last() =~= hex(value / 16));
    }
}

proof fn lemma_padded_hex_reads_back(value: nat, width: nat)
    requires
        value < pow16(width),
    ensures
        hex_value(padded_hex(value, width)) == Some(value),
        padded_hex(value, width).len() == width,
        forall|i: int| 0 <= i < width ==> padded_hex(value, width)[i] < 0x80,
        forall|i: int| 0 <= i < width ==> padded_hex(value, width)[i] != 0x2b,
    decreases width,
{
    if width > 0 {
        lemma_padded_hex_reads_back(value / 16, (width - 1) as nat);
        lemma_hex_digit_value(value % 16);
        assert(padded_hex(value, width).drop_last() =~= padded_hex(value / 16, (width - 1) as nat));
    }
}

/// Eight hexadecimal digits hold any 32-bit number, and reading them gives it back.
pub proof fn law_eight_digits_read_back(value: u32)
    ensures
        hex_u32(padded_hex(value as nat, 8)) == Some(value),
        padded_hex(value as nat, 8).len() == 8,
        forall|i: int| 0 <= i < 8 ==> padded_hex(value as nat, 8)[i] < 0x80,
{
    reveal_with_fuel(pow16, 9);
    assert(pow16(8) == 0x1_0000_0000);
    lemma_padded_hex_reads_back(value as nat, 8);
}

/// Digits put behind others make the number no smaller, and do not mend what is no number.
proof fn lemma_hex_value_of_prefix(digits: Seq<u8>, n: int)
    requires
        0 <= n <= digits.len(),
    ensures
        hex_value(digits.take(n)) is None ==> hex_value(digits) is None,
        hex_value(digits) matches Some(whole) ==> {
            &&& hex_value(digits.take(n)) matches Some(part)
            &&& part <= whole
        },
    decreases digits.len(),
{
    if n == digits.len() {
        assert(digits.take(n) =~= digits);
    } else {
        assert(digits.drop_last().take(n) =~= digits.take(n));
        lemma_hex_value_of_prefix(digits.drop_last(), n);
    }
}

/// Trimming takes white space off the two ends, all of it, and nothing else.
pub proof fn law_trimming_takes_white_space_off_the_ends(s: Seq<char>)
    ensures
        exists|a: int, b: int|
            0 <= a <= b <= s.len() && trimmed(s) == #[trigger] s.subrange(a, b) && (forall|i: int|
                0 <= i < a || b <= i < s.len() ==> white_space(#[trigger] s[i])),
        trimmed(s).len() > 0 ==> !white_space(trimmed(s)[0]) && !white_space(trimmed(s).last()),
{
    let a = lemma_trimmed_start(s);
    let rest = s.skip(a);
    let b = lemma_trimmed_end(rest);
    assert(rest.take(b) =~= s.subrange(a, a + b));
    assert forall|i: int| 0 <= i < a || a + b <= i < s.len() implies white_space(
        #[trigger] s[i],
    ) by {
        if i >= a {
            assert(rest[i - a] == s[i]);
        }
    }
    if b > 0 {
        assert(rest.take(b)[0] == rest[0]);
        if white_space(rest[0]) {
            assert(trimmed_start(rest) == rest);
        }
    }
}

proof fn lemma_trimmed_start(s: Seq<char>) -> (a: int)
    ensures
        0 <= a <= s.len(),
        trimmed_start(s) == s.skip(a),
        trimmed_start(s.skip(a)) == s.skip(a),
        a < s.len() ==> !white_space(s[a]),
        forall|i: int| 0 <= i < a ==> white_space(#[trigger] s[i]),
    decreases s.len(),
{
    if s.len() > 0 && white_space(s[0]) {
        let rest = s.drop_first();
        let a = lemma_trimmed_start(rest);
        assert(rest.skip(a) =~= s.skip(a + 1));
        assert forall|i: int| 0 <= i < a + 1 implies white_space(#[trigger] s[i]) by {
            if i > 0 {
                assert(rest[i - 1] == s[i]);
            }
        }
        a + 1
    } else {
        assert(s.skip(0) =~= s);
        0
    }
}

proof fn lemma_trimmed_end(s: Seq<char>) -> (b: int)
    ensures
        0 <= b <= s.len(),
        trimmed_end(s) == s.take(b),
        b > 0 ==> !white_space(s[b - 1]),
        forall|i: int| b <= i < s.len() ==> white_space(#[trigger] s[i]),
    decreases s.len(),
{
    if s.len() > 0 && white_space(s.last()) {
        let rest = s.drop_last();
        let b = lemma_trimmed_end(rest);
        assert(rest.take(b) =~= s.take(b));
        assert forall|i: int| b <= i < s.len() implies white_space(#[trigger] s[i]) by {
            if i < rest.len() {
                assert(rest[i] == s[i]);
            }
        }
        b
    } else {
        assert(s.take(s.len() as int) =~= s);
        s.len() as int
    }
}

/// The white space is the tab, the ends of lines and pages, the space, and the spaces that
/// Unicode has besides; no letter, digit or mark is.
pub proof fn law_white_space(c: char)
    ensures
        c as u32 <= 0x7f ==> (white_space(c) <==> c == ' ' || c == '\t' || c == '\n' || c == '\r'
            || c == '\u{b}' || c == '\u{c}'),
        c as u32 > 0x7f ==> (white_space(c) <==> seq![
            0x85u32, 0xa0, 0x1680, 0x2000, 0x2001, 0x2002, 0x2003, 0x2004, 0x2005, 0x2006, 0x2007,
            0x2008, 0x2009, 0x200a, 0x2028, 0x2029, 0x202f, 0x205f, 0x3000,
        ].contains(c as u32)),
{
    let others = seq![
        0x85u32, 0xa0, 0x1680, 0x2000, 0x2001, 0x2002, 0x2003, 0x2004, 0x2005, 0x2006, 0x2007,
        0x2008, 0x2009, 0x200a, 0x2028, 0x2029, 0x202f, 0x205f, 0x3000,
    ];
    if c as u32 > 0x7f && white_space(c) {
        let i: int = if c as u32 == 0x85 {
            0
        } else if c as u32 == 0xa0 {
            1
        } else if c as u32 == 0x1680 {
            2
        } else if c as u32 <= 0x200a {
            c as u32 - 0x2000 + 3
        } else if c as u32 == 0x2028 {
            14
        } else if c as u32 == 0x2029 {
            15
        } else if c as u32 == 0x202f {
            16
        } else if c as u32 == 0x205f {
            17
        } else {
            18
        };
        assert(others[i] == c as u32);
    }
}

/// The digits are the usual sixteen, in their order; reading takes them in either case, and
/// takes nothing else for a digit.
pub proof fn law_digits_are_the_usual_ones(value: nat, digit: u8)
    requires
        value < 16,
    ensures
        hex_digit(value) == "0123456789abcdef"@[value as int] as u8,
        hex_digit_value(digit) == Some(value) <==> digit == "0123456789abcdef"@[value as int] as u8
            || digit == "0123456789ABCDEF"@[value as int] as u8,
        hex_digit_value(digit) matches Some(v) ==> v < 16,
{
    reveal_strlit("0123456789abcdef");
    reveal_strlit("0123456789ABCDEF");
}

/// Each digit put behind a number counts one, and what was before it sixteen times what it
/// counted. What is no digit makes it no number.
pub proof fn law_digits_count_by_their_place(digits: Seq<u8>, digit: u8)
    ensures
        hex_value(Seq::empty()) == Some(0nat),
        hex_value(digits.push(digit)) == match (hex_value(digits), hex_digit_value(digit)) {
            (Some(before), Some(value)) => Some(before * 16 + value),
            _ => None,
        },
{
    assert(digits.push(digit).drop_last() =~= digits);
}

/// A number is written in lower case, with no zero before its first digit.
pub proof fn law_hex_is_short_and_in_lower_case(value: nat)
    ensures
        forall|i: int|
            0 <= i < hex(value).len() ==> '0' as u8 <= #[trigger] hex(value)[i] <= '9' as u8
                || 'a' as u8 <= hex(value)[i] <= 'f' as u8,
        hex(value).len() > 0,
        hex(value)[0] == '0' as u8 ==> value == 0 && hex(value).len() == 1,
    decreases value,
{
    if value >= 16 {
        law_hex_is_short_and_in_lower_case(value / 16);
        let high = hex(value / 16);
        assert forall|i: int| 0 <= i < hex(value).len() implies '0' as u8 <= #[trigger] hex(
            value,
        )[i] <= '9' as u8 || 'a' as u8 <= hex(value)[i] <= 'f' as u8 by {
            if i < high.len() {
                assert(hex(value)[i] == high[i]);
            }
        }
        assert(hex(value)[0] == high[0]);
    }
}

/// A number of 64 bits takes no more than sixteen digits, and one of 32 bits no more than eight.
pub(crate) proof fn lemma_hex_len(value: u64)
    ensures
        hex(value as nat).len() <= 16,
        value <= u32::MAX ==> hex(value as nat).len() <= 8,
{
    reveal_with_fuel(pow16, 17);
    assert(pow16(8) == 0x1_0000_0000);
    assert(pow16(16) == 0x1_0000_0000_0000_0000);
    lemma_hex_len_below(value as nat, 16);
    if value <= u32::MAX {
        lemma_hex_len_below(value as nat, 8);
    }
}

proof fn lemma_hex_len_below(value: nat, width: nat)
    requires
        width > 0,
        value < pow16(width),
    ensures
        hex(value).len() <= width,
    decreases width,
{
    if value >= 16 {
        assert(pow16(1) == 16) by {
            reveal_with_fuel(pow16, 2);
        }
        lemma_hex_len_below(value / 16, (width - 1) as nat);
    }
}

/// A number in so many digits is written in lower case.
pub proof fn law_padded_hex_is_in_lower_case(value: nat, width: nat)
    ensures
        padded_hex(value, width).len() == width,
        forall|i: int|
            0 <= i < width ==> '0' as u8 <= #[trigger] padded_hex(value, width)[i] <= '9' as u8
                || 'a' as u8 <= padded_hex(value, width)[i] <= 'f' as u8,
    decreases width,
{
    if width > 0 {
        let high = padded_hex(value / 16, (width - 1) as nat);
        law_padded_hex_is_in_lower_case(value / 16, (width - 1) as nat);
        assert forall|i: int| 0 <= i < width implies '0' as u8 <= #[trigger] padded_hex(
            value,
            width,
        )[i] <= '9' as u8 || 'a' as u8 <= padded_hex(value, width)[i] <= 'f' as u8 by {
            if i < high.len() {
                assert(padded_hex(value, width)[i] == high[i]);
            }
        }
    }
}

/// A number of up to 32 bits is read out of its digits, with or without a `+` before them, and
/// out of nothing else.
pub proof fn law_numbers_are_read(digits: Seq<u8>, value: u32)
    requires
        digits.len() > 0,
    ensures
        hex_value(digits) == Some(value as nat) ==> hex_u32(digits) == Some(value) && hex_u32(
            seq!['+' as u8] + digits,
        ) == Some(value),
        hex_u32(digits) == Some(value) ==> hex_value(digits) == Some(value as nat) || (digits[0]
            == '+' as u8 && digits.len() > 1 && hex_value(digits.skip(1)) == Some(value as nat)),
        hex_u32(Seq::empty()) is None,
        hex_u32(seq!['+' as u8]) is None,
{
    let signed = seq!['+' as u8] + digits;
    assert(signed.skip(1) =~= digits);
    if digits[0] == '+' as u8 {
        lemma_plus_is_no_digit(digits);
    }
    assert(seq!['+' as u8].skip(1) =~= Seq::<u8>::empty());
}

proof fn lemma_plus_is_no_digit(digits: Seq<u8>)
    requires
        digits.len() > 0,
        digits[0] == '+' as u8,
    ensures
        hex_value(digits) is None,
    decreases digits.len(),
{
    if digits.len() > 1 {
        lemma_plus_is_no_digit(digits.drop_last());
    }
}

/// Text put behind text is encoded behind it.
pub(crate) proof fn lemma_encoded_behind(before: Seq<char>, after: Seq<char>)
    ensures
        encode_utf8(before + after) == encode_utf8(before) + encode_utf8(after),
    decreases before.len(),
{
    if before.len() == 0 {
        assert(before + after =~= after);
        assert(encode_utf8(before) + encode_utf8(after) =~= encode_utf8(after));
    } else {
        assert((before + after).drop_first() =~= before.drop_first() + after);
        lemma_encoded_behind(before.drop_first(), after);
        assert(encode_utf8(before + after) =~= encode_utf8(before) + encode_utf8(after));
    }
}

proof fn lemma_small_char(c: char)
    ensures
        c as u32 <= 0x7f <==> '\0' <= c <= '\u{7f}',
{
}

/// Only characters of ASCII are encoded in bytes of ASCII.
pub(crate) proof fn lemma_ascii_bytes_are_ascii_chars(text: Seq<char>)
    requires
        forall|i: int| 0 <= i < encode_utf8(text).len() ==> #[trigger] encode_utf8(text)[i] < 0x80,
    ensures
        is_ascii_chars(text),
    decreases text.len(),
{
    if text.len() > 0 {
        let bytes = encode_utf8(text);
        let rest = text.drop_first();
        encode_utf8_first_scalar(text);
        let first = bytes[0];
        assert(first <= 0x7f);
        assert((first & 0x7f) as u32 == first as u32) by (bit_vector)
            requires
                first <= 0x7f,
        ;
        assert forall|i: int| 0 <= i < encode_utf8(rest).len() implies #[trigger] encode_utf8(
            rest,
        )[i] < 0x80 by {
            assert(bytes[i + 1] == encode_utf8(rest)[i]);
        }
        lemma_ascii_bytes_are_ascii_chars(rest);
        lemma_small_char(text[0]);
        assert forall|i: int| 0 <= i < text.len() implies '\0' <= #[trigger] text[i]
            <= '\u{7f}' by {
            if i > 0 {
                assert(rest[i - 1] == text[i]);
            }
        }
    }
}

fn digit_for(value: u8) -> (digit: u8)
    requires
        value < 16,
    ensures
        digit == hex_digit(value as nat),
{
    if value < 10 {
        0x30 + value
    } else {
        0x61 + (value - 10)
    }
}

fn digit_value(digit: u8) -> (value: Option<u8>)
    ensures
        match value {
            Some(v) => v < 16 && hex_digit_value(digit) == Some(v as nat),
            None => hex_digit_value(digit) is None,
        },
{
    if 0x30 <= digit && digit <= 0x39 {
        Some(digit - 0x30)
    } else if 0x61 <= digit && digit <= 0x66 {
        Some(digit - 0x61 + 10)
    } else if 0x41 <= digit && digit <= 0x46 {
        Some(digit - 0x41 + 10)
    } else {
        None
    }
}

/// Appends a number in hexadecimal.
pub(crate) fn push_hex(out: &mut Vec<u8>, value: u64)
    ensures
        final(out)@ == old(out)@ + hex(value as nat),
    decreases value,
{
    if value >= 16 {
        push_hex(out, value / 16);
    }
    out.push(digit_for((value % 16) as u8));
    proof {
        if value >= 16 {
            assert(out@ =~= old(out)@ + hex(value as nat));
        } else {
            assert(out@ =~= old(out)@ + seq![hex_digit(value as nat)]);
        }
    }
}

/// Appends the last `width` hexadecimal digits of a number.
pub(crate) fn push_padded_hex(out: &mut Vec<u8>, value: u32, width: u8)
    ensures
        final(out)@ == old(out)@ + padded_hex(value as nat, width as nat),
    decreases width,
{
    if width > 0 {
        push_padded_hex(out, value / 16, width - 1);
        out.push(digit_for((value % 16) as u8));
    }
    assert(out@ =~= old(out)@ + padded_hex(value as nat, width as nat));
}

/// Appends the UTF-8 encoding of a text.
pub(crate) fn push_text(out: &mut Vec<u8>, text: &str)
    ensures
        final(out)@ == old(out)@ + encode_utf8(text@),
{
    let bytes = text.as_bytes();
    out.extend_from_slice(bytes);
    assert(out@ =~= old(out)@ + bytes@);
}

/// Reads a number of up to 32 bits written in hexadecimal.
pub(crate) fn parse_hex_u32(text: &[u8]) -> (value: Option<u32>)
    ensures
        value == hex_u32(text@),
{
    let start: usize = if text.len() > 0 && text[0] == 0x2b {
        1
    } else {
        0
    };
    let ghost digits = text@.skip(start as int);
    assert(start == 0 ==> digits =~= text@);
    if start == text.len() {
        return None;
    }
    let mut value: u64 = 0;
    let mut i: usize = start;
    assert(digits.take(0) =~= Seq::<u8>::empty());
    while i < text.len()
        invariant
            start <= i <= text.len(),
            start < text.len(),
            start <= 1,
            start == 1 <==> text@[0] == 0x2b,
            digits == text@.skip(start as int),
            start == 0 ==> digits == text@,
            value <= u32::MAX,
            hex_value(digits.take(i - start)) == Some(value as nat),
        decreases text.len() - i,
    {
        let ghost next = digits.take(i - start + 1);
        proof {
            assert(next.drop_last() =~= digits.take(i - start));
            assert(next.last() == text@[i as int]);
            lemma_hex_value_of_prefix(digits, i - start + 1);
        }
        match digit_value(text[i]) {
            Some(low) => {
                value = 16 * value + low as u64;
                if value > u32::MAX as u64 {
                    return None;
                }
            },
            None => {
                return None;
            },
        }
        i = i + 1;
    }
    assert(digits.take(i - start) =~= digits);
    Some(value as u32)
}

} // verus!
