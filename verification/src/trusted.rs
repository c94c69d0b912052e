//! The calls into std that vstd gives no specification, and into outside
//! crates, each behind a contract that Verus takes on trust.
use vstd::prelude::*;
use vstd::utf8::*;

use mailparse::MailParseError;
use std::string::FromUtf8Error;

verus! {

/// `String::push`: appends the character `c` to `s` (std documents exactly this).
#[verifier::external_body]
pub(crate) fn push_char(s: &mut String, c: char)
    ensures
        final(s)@ == old(s)@.push(c),
{
    s.push(c)
}

#[verifier::external_type_specification]
#[verifier::external_body]
pub struct ExFromUtf8Error(FromUtf8Error);

/// `String::from_utf8`: succeeds exactly when `bytes` is valid UTF-8, and then
/// holds the characters that `bytes` encodes (std documents exactly this).
#[verifier::external_body]
pub(crate) fn string_from_utf8(bytes: Vec<u8>) -> (res: Result<String, FromUtf8Error>)
    ensures
        res is Ok <==> valid_utf8(bytes@),
        res matches Ok(s) ==> s@ == decode_utf8(bytes@),
{
    String::from_utf8(bytes)
}

/// The lowercase hexadecimal digit for `n` (`0 <= n < 16`).
pub open spec fn hex_digit(n: int) -> char {
    seq!['0', '1', '2', '3', '4', '5', '6', '7', '8', '9', 'a', 'b', 'c', 'd', 'e', 'f'][n]
}

/// `data` in lowercase hexadecimal: two digits per byte, high nibble first.
pub open spec fn hex_lower(data: Seq<u8>) -> Seq<char> {
    Seq::new(
        2 * data.len(),
        |k: int|
            if k % 2 == 0 {
                hex_digit(data[k / 2] as int / 16)
            } else {
                hex_digit(data[k / 2] as int % 16)
            },
    )
}

/// `hex::encode`: the bytes of `data` in lowercase hexadecimal, two digits per
/// byte, high nibble first (the crate's documentation and its table
/// `b"0123456789abcdef"` say exactly this).
#[verifier::external_body]
pub(crate) fn hex_encode(data: &[u8]) -> (res: String)
    ensures
        res@ == hex_lower(data@),
{
    hex::encode(data)
}

#[verifier::external_type_specification]
#[verifier::external_body]
pub struct ExMailParseError(MailParseError);

/// The header fields that `mailparse::parse_mail` finds at the top of the raw
/// message `raw`, each as the name that `MailHeader::get_key` gives and the
/// value that `MailHeader::get_value` gives, in the order of the message; `None`
/// where `parse_mail` returns an error.
pub uninterp spec fn mail_header_fields(raw: Seq<u8>) -> Option<Seq<(Seq<char>, Seq<char>)>>;

/// `mailparse::parse_mail`, keeping the top-level header fields as
/// (`get_key`, `get_value`) pairs. Its contract claims only that the outcome is
/// the one that `mail_header_fields` names for the same bytes.
#[verifier::external_body]
pub(crate) fn parse_mail_header_fields(raw: &[u8]) -> (res: Result<Vec<(String, String)>, MailParseError>)
    ensures
        res is Ok <==> mail_header_fields(raw@) is Some,
        res matches Ok(fields) ==> fields.deep_view() == mail_header_fields(raw@)->0,
{
    match mailparse::parse_mail(raw) {
        Ok(mail) => Ok(mail.headers.iter().map(|h| (h.get_key(), h.get_value())).collect()),
        Err(e) => Err(e),
    }
}

} // verus!
