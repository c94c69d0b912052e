//! Text helpers: byte-range slices of UTF-8 text, the characters of a
//! string, and decimal parsing with the rules of `u64::from_str`.
use vstd::prelude::*;
use vstd::utf8::*;
use vstd::string::*;

use crate::soft_breaks::{break_at, strip_from, strip_soft_breaks_text};
use crate::trusted::push_char;

verus! {

broadcast use vstd::utf8::encode_utf8_valid_utf8, vstd::utf8::encode_utf8_decode_utf8;

/// `start..end` is a byte range of the UTF-8 encoding of `text` whose ends
/// both fall on character boundaries: exactly the ranges for which
/// `&text[start..end]` does not panic.
pub open spec fn is_text_range(text: Seq<char>, start: int, end: int) -> bool {
    &&& 0 <= start <= end <= encode_utf8(text).len()
    &&& is_char_boundary(encode_utf8(text), start)
    &&& is_char_boundary(encode_utf8(text), end)
}

/// The characters that the bytes `start..end` of the UTF-8 encoding of `text` encode.
pub open spec fn text_range(text: Seq<char>, start: int, end: int) -> Seq<char> {
    decode_utf8(encode_utf8(text).subrange(start, end))
}

proof fn lemma_boundary_in_prefix(bytes: Seq<u8>, start: int, end: int)
    requires
        valid_utf8(bytes),
        0 <= start <= end <= bytes.len(),
        is_char_boundary(bytes, start),
        is_char_boundary(bytes, end),
    ensures
        valid_utf8(bytes.subrange(0, end)),
        is_char_boundary(bytes.subrange(0, end), start),
{
    valid_utf8_split(bytes, end);
    let prefix = bytes.subrange(0, end);
    if start == end {
        is_char_boundary_start_end_of_seq(prefix);
    } else {
        is_char_boundary_iff_not_is_continuation_byte(bytes, start);
        is_char_boundary_iff_not_is_continuation_byte(prefix, start);
    }
}

/// The text at a byte range encodes exactly the bytes of that range of the
/// text's encoding, wherever the range lies; the whole range gives the text.
pub proof fn law_text_range_bytes(text: Seq<char>, start: int, end: int)
    requires
        is_text_range(text, start, end),
    ensures
        encode_utf8(text_range(text, start, end)) == encode_utf8(text).subrange(start, end),
        encode_utf8(text_range(text, start, end)).len() == end - start,
        text_range(text, 0, encode_utf8(text).len() as int) == text,
{
    let bytes = encode_utf8(text);
    lemma_boundary_in_prefix(bytes, start, end);
    let prefix = bytes.subrange(0, end);
    valid_utf8_split(prefix, start);
    assert(prefix.subrange(start, prefix.len() as int) =~= bytes.subrange(start, end));
    decode_utf8_encode_utf8(bytes.subrange(start, end));
    assert(bytes.subrange(0, bytes.len() as int) =~= bytes);
}

/// The text of `text[start..end]`, where `start..end` is a byte range.
pub fn slice_text(text: &str, start: usize, end: usize) -> (res: String)
    requires
        is_text_range(text@, start as int, end as int),
    ensures
        res@ == text_range(text@, start as int, end as int),
{
    proof {
        lemma_boundary_in_prefix(text.spec_bytes(), start as int, end as int);
    }
    let (left, _right) = text.split_at(end);
    let (_before, middle) = left.split_at(start);
    proof {
        let bytes = text.spec_bytes();
        assert(middle.spec_bytes() =~= bytes.subrange(start as int, end as int));
    }
    String::from_str(middle)
}

/// The characters of `text`, in order.
pub fn chars_of(text: &str) -> (res: Vec<char>)
    ensures
        res@ == text@,
{
    let mut res: Vec<char> = Vec::new();
    for c in it: text.chars()
        invariant
            it.seq() == text@,
            res@ == text@.take(it.index() as int),
    {
        res.push(c);
        assert(res@ =~= text@.take(it.index() + 1));
    }
    assert(res@ =~= text@);
    res
}

/// The characters of `text` with every soft line break `=\r\n` removed, scanning
/// left to right: what `text.replace("=\r\n", "")` gives.
pub fn remove_soft_breaks_in_text(text: &str) -> (res: String)
    ensures
        res@ == strip_soft_breaks_text(text@),
{
    let cs = chars_of(text);
    let n = cs.len();
    let mut res = String::new();
    let mut i: usize = 0;
    while i < n
        invariant
            cs@ == text@,
            n == cs.len(),
            0 <= i <= n,
            res@ + strip_from(text@, i as int, '=', '\r', '\n') == strip_soft_breaks_text(text@),
        decreases n - i,
    {
        if cs[i] == '=' && n - i >= 3 && cs[i + 1] == '\r' && cs[i + 2] == '\n' {
            assert(break_at(text@, i as int, '=', '\r', '\n'));
            i = i + 3;
        } else {
            assert(!break_at(text@, i as int, '=', '\r', '\n'));
            let ghost before = res@;
            push_char(&mut res, cs[i]);
            assert(res@ + strip_from(text@, i + 1, '=', '\r', '\n') =~= before + strip_from(
                text@,
                i as int,
                '=',
                '\r',
                '\n',
            ));
            i = i + 1;
        }
    }
    assert(res@ =~= strip_soft_breaks_text(text@));
    res
}

/// An ASCII decimal digit.
pub open spec fn is_digit(c: char) -> bool {
    '0' <= c && c <= '9'
}

/// The value of the decimal digit `c`.
pub open spec fn digit_value(c: char) -> nat {
    (c as int - '0' as int) as nat
}

/// Why a text is not a `u64` in decimal: the kinds of error that
/// `u64::from_str` reports.
#[derive(Debug, Clone, Copy, PartialEq, Eq, Structural)]
pub enum NumberErrorKind {
    /// The text is empty.
    Empty,
    /// The text holds a character that is not a digit (or is a lone sign).
    InvalidDigit,
    /// The number is larger than `u64::MAX`.
    PosOverflow,
}

/// The digits of an unsigned number: the text without a leading `+`, if it has one.
pub open spec fn unsigned_digits(s: Seq<char>) -> Seq<char> {
    if s.len() > 0 && s[0] == '+' {
        s.drop_first()
    } else {
        s
    }
}

/// Reading `ds` left to right, digit by digit: the value read, or the first
/// error met, a character that is not a digit or a value past `u64::MAX`.
pub open spec fn scan_digits(ds: Seq<char>) -> Result<u64, NumberErrorKind>
    decreases ds.len(),
{
    if ds.len() == 0 {
        Ok(0)
    } else {
        match scan_digits(ds.drop_last()) {
            Err(e) => Err(e),
            Ok(v) => if !is_digit(ds.last()) {
                Err(NumberErrorKind::InvalidDigit)
            } else if v * 10 + digit_value(ds.last()) > u64::MAX {
                Err(NumberErrorKind::PosOverflow)
            } else {
                Ok((v * 10 + digit_value(ds.last())) as u64)
            },
        }
    }
}

/// What `u64::from_str` gives for `s`: an empty text is an error of its own,
/// a lone sign is an invalid digit, and otherwise an optional `+` is followed
/// by digits read left to right.
pub open spec fn parse_u64(s: Seq<char>) -> Result<u64, NumberErrorKind> {
    if s.len() == 0 {
        Err(NumberErrorKind::Empty)
    } else if s.len() == 1 && (s[0] == '+' || s[0] == '-') {
        Err(NumberErrorKind::InvalidDigit)
    } else {
        scan_digits(unsigned_digits(s))
    }
}

/// The empty text is an `Empty` error, and one digit is its own value.
pub proof fn law_parse_u64_short(c: char)
    ensures
        parse_u64(seq![]) == Err::<u64, NumberErrorKind>(NumberErrorKind::Empty),
        is_digit(c) ==> parse_u64(seq![c]) == Ok::<u64, NumberErrorKind>(digit_value(c) as u64),
        !is_digit(c) ==> parse_u64(seq![c]) == Err::<u64, NumberErrorKind>(
            NumberErrorKind::InvalidDigit,
        ),
{
    let s = seq![c];
    if c != '+' {
        assert(unsigned_digits(s) == s);
        assert(s.drop_last() =~= Seq::<char>::empty());
    }
}

/// Appending a digit to a number multiplies it by ten and adds the digit, or
/// is an overflow where that passes `u64::MAX`; appending anything else is an
/// invalid digit.
pub proof fn law_parse_u64_append(d: Seq<char>, c: char)
    requires
        parse_u64(d) is Ok,
    ensures
        ({
            let v = parse_u64(d)->Ok_0;
            &&& is_digit(c) && v * 10 + digit_value(c) <= u64::MAX ==> parse_u64(d.push(c)) == Ok::<
                u64,
                NumberErrorKind,
            >((v * 10 + digit_value(c)) as u64)
            &&& is_digit(c) && v * 10 + digit_value(c) > u64::MAX ==> parse_u64(d.push(c)) == Err::<
                u64,
                NumberErrorKind,
            >(NumberErrorKind::PosOverflow)
            &&& !is_digit(c) ==> parse_u64(d.push(c)) == Err::<u64, NumberErrorKind>(
                NumberErrorKind::InvalidDigit,
            )
        }),
{
    assert(d.len() > 0);
    assert(unsigned_digits(d.push(c)) =~= unsigned_digits(d).push(c));
    assert(unsigned_digits(d).push(c).drop_last() =~= unsigned_digits(d));
}

/// Once a text is in error (other than a lone `+`, which digits may follow),
/// whatever is appended leaves the error as it is.
pub proof fn law_parse_u64_error_stays(d: Seq<char>, c: char)
    requires
        parse_u64(d) is Err,
        d.len() > 0,
        !(d.len() == 1 && d[0] == '+'),
    ensures
        parse_u64(d.push(c)) == parse_u64(d),
{
    assert(unsigned_digits(d.push(c)) =~= unsigned_digits(d).push(c));
    assert(unsigned_digits(d).push(c).drop_last() =~= unsigned_digits(d));
    if d.len() == 1 && d[0] == '-' {
        assert(unsigned_digits(d) == d);
        assert(d.drop_last() =~= Seq::<char>::empty());
        assert(!is_digit(d.last()));
        assert(scan_digits(d.drop_last()) == Ok::<u64, NumberErrorKind>(0));
        assert(scan_digits(d) == Err::<u64, NumberErrorKind>(NumberErrorKind::InvalidDigit));
        assert(d.push(c).drop_last() =~= d);
    }
}

/// A leading `+` before digits changes nothing.
pub proof fn law_parse_u64_plus(d: Seq<char>)
    requires
        d.len() > 0,
        is_digit(d[0]),
    ensures
        parse_u64(seq!['+'] + d) == parse_u64(d),
{
    assert((seq!['+'] + d).drop_first() =~= d);
    assert(unsigned_digits(d) == d);
}

/// An error met in a prefix is the error of the whole.
pub proof fn lemma_scan_digits_error(ds: Seq<char>, k: int)
    requires
        0 <= k <= ds.len(),
        scan_digits(ds.take(k)) is Err,
    ensures
        scan_digits(ds) == scan_digits(ds.take(k)),
    decreases ds.len(),
{
    if k == ds.len() {
        assert(ds.take(k) =~= ds);
    } else {
        assert(ds.drop_last().take(k) =~= ds.take(k));
        lemma_scan_digits_error(ds.drop_last(), k);
    }
}

/// Parses `text` as `u64::from_str` does.
pub fn parse_decimal_u64(text: &str) -> (res: Result<u64, NumberErrorKind>)
    ensures
        res == parse_u64(text@),
{
    let cs = chars_of(text);
    let n = cs.len();
    if n == 0 {
        return Err(NumberErrorKind::Empty);
    }
    if n == 1 && (cs[0] == '+' || cs[0] == '-') {
        return Err(NumberErrorKind::InvalidDigit);
    }
    let start: usize = if cs[0] == '+' {
        1
    } else {
        0
    };
    let ghost ds = unsigned_digits(text@);
    assert(ds =~= cs@.subrange(start as int, n as int));
    let mut acc: u64 = 0;
    let mut i: usize = start;
    assert(ds.take(0) =~= Seq::<char>::empty());
    while i < n
        invariant
            cs@ == text@,
            n == cs.len(),
            start <= i <= n,
            ds == cs@.subrange(start as int, n as int),
            ds == unsigned_digits(text@),
            scan_digits(ds.take(i - start)) == Ok::<u64, NumberErrorKind>(acc),
        decreases n - i,
    {
        let c = cs[i];
        assert(c == ds[i - start]);
        assert(ds.take(i - start + 1).drop_last() =~= ds.take(i - start));
        assert(ds.take(i - start + 1).last() == c);
        if !('0' <= c && c <= '9') {
            proof {
                lemma_scan_digits_error(ds, i - start + 1);
            }
            return Err(NumberErrorKind::InvalidDigit);
        }
        let d: u64 = (c as u32 - 48u32) as u64;
        assert(digit_value(c) == d);
        if acc > (u64::MAX - d) / 10 {
            proof {
                assert(acc * 10 + d > u64::MAX) by (nonlinear_arith)
                    requires
                        acc > (u64::MAX - d) / 10,
                        d <= 9,
                ;
                lemma_scan_digits_error(ds, i - start + 1);
            }
            return Err(NumberErrorKind::PosOverflow);
        }
        proof {
            assert(acc * 10 + d <= u64::MAX) by (nonlinear_arith)
                requires
                    acc <= (u64::MAX - d) / 10,
                    d <= 9,
            ;
        }
        acc = acc * 10 + d;
        i = i + 1;
    }
    assert(ds.take(n - start) =~= ds);
    Ok(acc)
}

} // verus!
