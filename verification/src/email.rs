//! A parsed DKIM-signed email: its canonicalized header and body, signature,
//! public key, cleaned body and headers, and the fields read out of them at
//! the byte ranges that a regex search reports.
use vstd::prelude::*;
use vstd::string::*;
use vstd::utf8::*;

use mailparse::MailParseError;
use std::string::FromUtf8Error;

use crate::headers::{grouped_headers, EmailHeaders};
use crate::soft_breaks::{
    break_at, lemma_concat_from, strip_from, lemma_strip_from_no_break, law_soft_breaks_in_utf8, padded_cleaned, remove_quoted_printable_soft_breaks, strip_soft_breaks,
    strip_soft_breaks_text,
};
use crate::text::{
    is_text_range, law_text_range_bytes, parse_decimal_u64, NumberErrorKind, parse_u64, remove_soft_breaks_in_text, slice_text,
    text_range,
};
use crate::trusted::{hex_encode, hex_lower, mail_header_fields, parse_mail_header_fields, string_from_utf8};

verus! {

/// Why an email could not be parsed, or a field not read.
#[derive(Debug)]
pub enum EmailError {
    /// The raw email is not a message that the mail parser accepts; the parser's error.
    MailParse(MailParseError),
    /// Canonicalizing the signed email failed, with the canonicalizer's message.
    Canonicalization(String),
    /// The canonicalized header or body is not valid UTF-8; the conversion's error.
    InvalidUtf8(FromUtf8Error),
    /// The text at the timestamp's range is not a decimal `u64`, with the kind of error.
    InvalidTimestamp(NumberErrorKind),
}

/// The canonicalized parts of an email along with its signature and public key.
#[derive(Debug, Clone)]
pub struct ParsedEmail {
    /// The canonicalized email header.
    pub canonicalized_header: String,
    /// The canonicalized email body.
    pub canonicalized_body: String,
    /// The email signature bytes.
    pub signature: Vec<u8>,
    /// The public key bytes associated with the email.
    pub public_key: Vec<u8>,
    /// The canonicalized body with quoted-printable soft line breaks removed.
    pub cleaned_body: String,
    /// The email headers.
    pub headers: EmailHeaders,
}

/// The range `ranges[0]` is a range of `text` that can be sliced out.
pub open spec fn first_range_in(text: Seq<char>, ranges: Seq<(usize, usize)>) -> bool {
    &&& ranges.len() > 0
    &&& is_text_range(text, ranges[0].0 as int, ranges[0].1 as int)
}

/// The text of `text` at the byte range `ranges[0]`.
pub open spec fn first_range_text(text: Seq<char>, ranges: Seq<(usize, usize)>) -> Seq<char> {
    text_range(text, ranges[0].0 as int, ranges[0].1 as int)
}

/// The command that `get_command` reads: nothing when the body hash check is
/// ignored; else the text at the first range found in the canonicalized body,
/// with soft line breaks removed; else the text at the first range found in
/// the cleaned body; else nothing.
pub open spec fn command_text(
    email: &ParsedEmail,
    ignore_body_hash_check: bool,
    in_body: Option<Seq<(usize, usize)>>,
    in_cleaned_body: Option<Seq<(usize, usize)>>,
) -> Seq<char> {
    if ignore_body_hash_check {
        seq![]
    } else {
        match in_body {
            Some(r) => strip_soft_breaks_text(first_range_text(email.canonicalized_body@, r)),
            None => match in_cleaned_body {
                Some(r) => first_range_text(email.cleaned_body@, r),
                None => seq![],
            },
        }
    }
}

/// The ranges that `get_command` slices can be sliced out.
pub open spec fn command_ranges_valid(
    email: &ParsedEmail,
    ignore_body_hash_check: bool,
    in_body: Option<Seq<(usize, usize)>>,
    in_cleaned_body: Option<Seq<(usize, usize)>>,
) -> bool {
    !ignore_body_hash_check ==> match in_body {
        Some(r) => first_range_in(email.canonicalized_body@, r),
        None => match in_cleaned_body {
            Some(r) => first_range_in(email.cleaned_body@, r),
            None => true,
        },
    }
}

/// The ranges of an optional search result, as a sequence.
pub open spec fn ranges_view(x: Option<&[(usize, usize)]>) -> Option<Seq<(usize, usize)>> {
    match x {
        Some(r) => Some(r@),
        None => None,
    }
}

/// The text at the first range of a search result encodes exactly the bytes
/// of that range, wherever it lies in the text.
pub proof fn law_first_range_text_bytes(text: Seq<char>, ranges: Seq<(usize, usize)>)
    requires
        first_range_in(text, ranges),
    ensures
        encode_utf8(first_range_text(text, ranges)) == encode_utf8(text).subrange(
            ranges[0].0 as int,
            ranges[0].1 as int,
        ),
{
    law_text_range_bytes(text, ranges[0].0 as int, ranges[0].1 as int);
}

/// With the body hash check ignored, the command is empty whatever the searches found.
pub proof fn law_command_ignored(
    email: &ParsedEmail,
    in_body: Option<Seq<(usize, usize)>>,
    in_cleaned_body: Option<Seq<(usize, usize)>>,
)
    ensures
        command_text(email, true, in_body, in_cleaned_body) == Seq::<char>::empty(),
{
}

/// Where neither search found anything, the command is empty.
pub proof fn law_command_not_found(email: &ParsedEmail)
    ensures
        command_text(email, false, None, None) == Seq::<char>::empty(),
{
}

/// Found only in the cleaned body, the command is the cleaned body's bytes at
/// the first range found.
pub proof fn law_command_from_cleaned_body(email: &ParsedEmail, ranges: Seq<(usize, usize)>)
    requires
        first_range_in(email.cleaned_body@, ranges),
    ensures
        encode_utf8(command_text(email, false, None, Some(ranges))) == encode_utf8(
            email.cleaned_body@,
        ).subrange(ranges[0].0 as int, ranges[0].1 as int),
{
    law_first_range_text_bytes(email.cleaned_body@, ranges);
}

/// Found in the canonicalized body at a text with no soft line break, the
/// command is the body's bytes at that range, unchanged.
pub proof fn law_command_without_soft_breaks(
    email: &ParsedEmail,
    ranges: Seq<(usize, usize)>,
    in_cleaned_body: Option<Seq<(usize, usize)>>,
)
    requires
        first_range_in(email.canonicalized_body@, ranges),
        forall|i: int|
            !#[trigger] break_at(
                first_range_text(email.canonicalized_body@, ranges),
                i,
                '=',
                '\r',
                '\n',
            ),
    ensures
        encode_utf8(command_text(email, false, Some(ranges), in_cleaned_body)) == encode_utf8(
            email.canonicalized_body@,
        ).subrange(ranges[0].0 as int, ranges[0].1 as int),
{
    let t = first_range_text(email.canonicalized_body@, ranges);
    lemma_strip_from_no_break(t, 0, '=', '\r', '\n');
    assert(t.subrange(0, t.len() as int) =~= t);
    law_first_range_text_bytes(email.canonicalized_body@, ranges);
}

/// A matched text that is a single soft line break `=\r\n` gives an empty command.
pub proof fn law_command_of_soft_break(
    email: &ParsedEmail,
    ranges: Seq<(usize, usize)>,
    in_cleaned_body: Option<Seq<(usize, usize)>>,
)
    requires
        first_range_text(email.canonicalized_body@, ranges) == seq!['=', '\r', '\n'],
    ensures
        command_text(email, false, Some(ranges), in_cleaned_body) == Seq::<char>::empty(),
{
    let t = seq!['=', '\r', '\n'];
    assert(break_at(t, 0, '=', '\r', '\n'));
    assert(strip_from(t, 3, '=', '\r', '\n') == Seq::<char>::empty());
    assert(strip_soft_breaks_text(t) == strip_from(t, 3, '=', '\r', '\n'));
}

/// Commands of joined texts join: where the text at `whole` is the text at
/// `first` followed by the text at `second`, and the first text does not end
/// inside a possible soft line break (its last character is neither `=` nor
/// `\r`), the command read at `whole` is the command read at `first` followed
/// by the command read at `second`. With the two laws above, this removes
/// every soft line break of a matched text, not only the first.
pub proof fn law_command_concat(
    email: &ParsedEmail,
    first: Seq<(usize, usize)>,
    second: Seq<(usize, usize)>,
    whole: Seq<(usize, usize)>,
    in_cleaned_body: Option<Seq<(usize, usize)>>,
)
    requires
        first_range_text(email.canonicalized_body@, whole) == first_range_text(
            email.canonicalized_body@,
            first,
        ) + first_range_text(email.canonicalized_body@, second),
        first_range_text(email.canonicalized_body@, first).len() == 0 || (first_range_text(
            email.canonicalized_body@,
            first,
        ).last() != '=' && first_range_text(email.canonicalized_body@, first).last() != '\r'),
    ensures
        command_text(email, false, Some(whole), in_cleaned_body) == command_text(
            email,
            false,
            Some(first),
            in_cleaned_body,
        ) + command_text(email, false, Some(second), in_cleaned_body),
{
    let a = first_range_text(email.canonicalized_body@, first);
    let b = first_range_text(email.canonicalized_body@, second);
    lemma_concat_from(a, b, 0, '=', '\r', '\n');
}

impl ParsedEmail {
    /// Builds a `ParsedEmail` from a raw email, its public key, and what
    /// canonicalizing the signed email gave: the canonicalized header, the
    /// canonicalized body and the signature bytes, or the canonicalizer's error.
    /// The headers are those that the mail parser finds in the raw email; the
    /// cleaned body is the canonicalized body with quoted-printable soft line
    /// breaks removed and zero bytes padded back to its length.
    pub fn new_from_raw_email_with_public_key(
        raw_email: &str,
        public_key: Vec<u8>,
        canonicalized: Result<(Vec<u8>, Vec<u8>, Vec<u8>), String>,
    ) -> (res: Result<ParsedEmail, EmailError>)
        ensures
            mail_header_fields(raw_email.spec_bytes()) is None ==> res matches Err(
                EmailError::MailParse(_),
            ),
            mail_header_fields(raw_email.spec_bytes()) is Some ==> match canonicalized {
                Err(message) => res matches Err(EmailError::Canonicalization(m)) && m@
                    == message@,
                Ok((header, body, signature)) => if valid_utf8(header@) && valid_utf8(body@) {
                    res matches Ok(email) && {
                        &&& email.canonicalized_header@ == decode_utf8(header@)
                        &&& email.canonicalized_body@ == decode_utf8(body@)
                        &&& email.signature@ == signature@
                        &&& email.public_key@ == public_key@
                        &&& email.cleaned_body@ == decode_utf8(padded_cleaned(body@))
                        &&& email.cleaned_body@ == strip_soft_breaks_text(
                            email.canonicalized_body@,
                        ) + Seq::new(
                            (body@.len() - strip_soft_breaks(body@).len()) as nat,
                            |k: int| '\0',
                        )
                        &&& email.headers@ == grouped_headers(
                            mail_header_fields(raw_email.spec_bytes())->0,
                        )
                    }
                } else {
                    res matches Err(EmailError::InvalidUtf8(_))
                },
            },
    {
        let fields = match parse_mail_header_fields(raw_email.as_bytes()) {
            Ok(fields) => fields,
            Err(err) => {
                return Err(EmailError::MailParse(err));
            },
        };
        let headers = EmailHeaders::new_from_mail(&fields);
        let (header_bytes, body_bytes, signature) = match canonicalized {
            Ok(parts) => parts,
            Err(message) => {
                return Err(EmailError::Canonicalization(message));
            },
        };
        let canonicalized_header = match string_from_utf8(header_bytes) {
            Ok(s) => s,
            Err(err) => {
                return Err(EmailError::InvalidUtf8(err));
            },
        };
        let canonicalized_body = match string_from_utf8(body_bytes.clone()) {
            Ok(s) => s,
            Err(err) => {
                return Err(EmailError::InvalidUtf8(err));
            },
        };
        proof {
            law_soft_breaks_in_utf8(body_bytes@);
        }
        let (cleaned, _index_map) = remove_quoted_printable_soft_breaks(body_bytes);
        let cleaned_body = match string_from_utf8(cleaned) {
            Ok(s) => s,
            Err(err) => {
                return Err(EmailError::InvalidUtf8(err));
            },
        };
        Ok(
            ParsedEmail {
                canonicalized_header,
                canonicalized_body,
                signature,
                public_key,
                cleaned_body,
                headers,
            },
        )
    }

    /// The signature bytes in lowercase hexadecimal, prefixed with `0x`.
    pub fn signature_string(&self) -> (res: String)
        ensures
            res@ == seq!['0', 'x'] + hex_lower(self.signature@),
    {
        let prefix = "0x";
        proof {
            reveal_strlit("0x");
        }
        let mut res = String::from_str(prefix);
        let digits = hex_encode(self.signature.as_slice());
        res.append(digits.as_str());
        res
    }

    /// The public key bytes in lowercase hexadecimal, prefixed with `0x`.
    pub fn public_key_string(&self) -> (res: String)
        ensures
            res@ == seq!['0', 'x'] + hex_lower(self.public_key@),
    {
        let prefix = "0x";
        proof {
            reveal_strlit("0x");
        }
        let mut res = String::from_str(prefix);
        let digits = hex_encode(self.public_key.as_slice());
        res.append(digits.as_str());
        res
    }

    /// The 'From' address: the canonicalized header at the first range that
    /// the search for it found.
    pub fn get_from_addr(&self, from_addr_idxes: &[(usize, usize)]) -> (res: String)
        requires
            first_range_in(self.canonicalized_header@, from_addr_idxes@),
        ensures
            res@ == first_range_text(self.canonicalized_header@, from_addr_idxes@),
    {
        let idxes = from_addr_idxes[0];
        slice_text(self.canonicalized_header.as_str(), idxes.0, idxes.1)
    }

    /// The index range of the 'From' address: the first range that the search found.
    pub fn get_from_addr_idxes(&self, from_addr_idxes: &[(usize, usize)]) -> (res: (usize, usize))
        requires
            from_addr_idxes@.len() > 0,
        ensures
            res == from_addr_idxes@[0],
    {
        from_addr_idxes[0]
    }

    /// The 'To' address: the canonicalized header at the first range that the
    /// search for it found.
    pub fn get_to_addr(&self, to_addr_idxes: &[(usize, usize)]) -> (res: String)
        requires
            first_range_in(self.canonicalized_header@, to_addr_idxes@),
        ensures
            res@ == first_range_text(self.canonicalized_header@, to_addr_idxes@),
    {
        let idxes = to_addr_idxes[0];
        slice_text(self.canonicalized_header.as_str(), idxes.0, idxes.1)
    }

    /// The domain of the 'From' address: the 'From' address (the header at the
    /// first range of `from_addr_idxes`) at the first range of `domain_idxes`,
    /// the ranges that the search for a domain found in that address.
    pub fn get_email_domain(
        &self,
        from_addr_idxes: &[(usize, usize)],
        domain_idxes: &[(usize, usize)],
    ) -> (res: String)
        requires
            first_range_in(self.canonicalized_header@, from_addr_idxes@),
            first_range_in(
                first_range_text(self.canonicalized_header@, from_addr_idxes@),
                domain_idxes@,
            ),
        ensures
            res@ == first_range_text(
                first_range_text(self.canonicalized_header@, from_addr_idxes@),
                domain_idxes@,
            ),
    {
        let from_addr = self.get_from_addr(from_addr_idxes);
        let idxes = domain_idxes[0];
        slice_text(from_addr.as_str(), idxes.0, idxes.1)
    }

    /// The index range of the domain within the 'From' address. The 'From'
    /// range must be one that can be sliced out of the header, since the
    /// address is read out before the domain is searched in it.
    pub fn get_email_domain_idxes(
        &self,
        from_addr_idxes: &[(usize, usize)],
        domain_idxes: &[(usize, usize)],
    ) -> (res: (usize, usize))
        requires
            first_range_in(self.canonicalized_header@, from_addr_idxes@),
            domain_idxes@.len() > 0,
        ensures
            res == domain_idxes@[0],
    {
        domain_idxes[0]
    }

    /// The entire subject line: the canonicalized header at the first range
    /// that the search for it found.
    pub fn get_subject_all(&self, subject_idxes: &[(usize, usize)]) -> (res: String)
        requires
            first_range_in(self.canonicalized_header@, subject_idxes@),
        ensures
            res@ == first_range_text(self.canonicalized_header@, subject_idxes@),
    {
        let idxes = subject_idxes[0];
        slice_text(self.canonicalized_header.as_str(), idxes.0, idxes.1)
    }

    /// The index range of the entire subject line.
    pub fn get_subject_all_idxes(&self, subject_idxes: &[(usize, usize)]) -> (res: (usize, usize))
        requires
            subject_idxes@.len() > 0,
        ensures
            res == subject_idxes@[0],
    {
        subject_idxes[0]
    }

    /// The index range of the body hash within the canonicalized header.
    pub fn get_body_hash_idxes(&self, body_hash_idxes: &[(usize, usize)]) -> (res: (usize, usize))
        requires
            body_hash_idxes@.len() > 0,
        ensures
            res == body_hash_idxes@[0],
    {
        body_hash_idxes[0]
    }

    /// The canonicalized email body.
    pub fn get_body(&self) -> (res: Result<String, EmailError>)
        ensures
            res matches Ok(body) && body@ == self.canonicalized_body@,
    {
        Ok(self.canonicalized_body.clone())
    }

    /// The cleaned email body.
    pub fn get_cleaned_body(&self) -> (res: Result<String, EmailError>)
        ensures
            res matches Ok(body) && body@ == self.cleaned_body@,
    {
        Ok(self.cleaned_body.clone())
    }

    /// The timestamp: the canonicalized header at the first range that the
    /// search for it found, read as a decimal `u64` as `u64::from_str` reads it.
    pub fn get_timestamp(&self, timestamp_idxes: &[(usize, usize)]) -> (res: Result<u64, EmailError>)
        requires
            first_range_in(self.canonicalized_header@, timestamp_idxes@),
        ensures
            match parse_u64(first_range_text(self.canonicalized_header@, timestamp_idxes@)) {
                Ok(t) => res matches Ok(v) && v == t,
                Err(kind) => res matches Err(EmailError::InvalidTimestamp(k)) && k == kind,
            },
    {
        let idxes = timestamp_idxes[0];
        let text = slice_text(self.canonicalized_header.as_str(), idxes.0, idxes.1);
        match parse_decimal_u64(text.as_str()) {
            Ok(t) => Ok(t),
            Err(kind) => Err(EmailError::InvalidTimestamp(kind)),
        }
    }

    /// The index range of the timestamp.
    pub fn get_timestamp_idxes(&self, timestamp_idxes: &[(usize, usize)]) -> (res: (usize, usize))
        requires
            timestamp_idxes@.len() > 0,
        ensures
            res == timestamp_idxes@[0],
    {
        timestamp_idxes[0]
    }

    /// The invitation code, extracted from the canonicalized email body: the
    /// body at the first range that the search for the code found in it. The
    /// body hash flag does not change the text that the code is read from.
    pub fn get_invitation_code(
        &self,
        ignore_body_hash_check: bool,
        invitation_code_idxes: &[(usize, usize)],
    ) -> (res: String)
        requires
            first_range_in(self.canonicalized_body@, invitation_code_idxes@),
        ensures
            res@ == first_range_text(self.canonicalized_body@, invitation_code_idxes@),
    {
        let idxes = invitation_code_idxes[0];
        slice_text(self.canonicalized_body.as_str(), idxes.0, idxes.1)
    }

    /// The index range of the invitation code within the canonicalized email
    /// body: the first range that the search in the body found. Where that
    /// range can be sliced out of the body, the body's text there is the code
    /// that `get_invitation_code` gives.
    pub fn get_invitation_code_idxes(
        &self,
        ignore_body_hash_check: bool,
        invitation_code_idxes: &[(usize, usize)],
    ) -> (res: (usize, usize))
        requires
            invitation_code_idxes@.len() > 0,
        ensures
            res == invitation_code_idxes@[0],
            is_text_range(self.canonicalized_body@, res.0 as int, res.1 as int) ==> text_range(
                self.canonicalized_body@,
                res.0 as int,
                res.1 as int,
            ) == first_range_text(self.canonicalized_body@, invitation_code_idxes@),
    {
        invitation_code_idxes[0]
    }

    /// The email address in the subject: the subject line (the header at the
    /// first range of `subject_idxes`) at the first range of `addr_idxes`, the
    /// ranges that the search for an address found in the subject.
    pub fn get_email_addr_in_subject(
        &self,
        subject_idxes: &[(usize, usize)],
        addr_idxes: &[(usize, usize)],
    ) -> (res: String)
        requires
            first_range_in(self.canonicalized_header@, subject_idxes@),
            first_range_in(
                first_range_text(self.canonicalized_header@, subject_idxes@),
                addr_idxes@,
            ),
        ensures
            res@ == first_range_text(
                first_range_text(self.canonicalized_header@, subject_idxes@),
                addr_idxes@,
            ),
    {
        let subject = self.get_subject_all(subject_idxes);
        let idxes = addr_idxes[0];
        slice_text(subject.as_str(), idxes.0, idxes.1)
    }

    /// The index range of the email address within the subject line. The
    /// subject range must be one that can be sliced out of the header, since
    /// the subject is read out before the address is searched in it.
    pub fn get_email_addr_in_subject_idxes(
        &self,
        subject_idxes: &[(usize, usize)],
        addr_idxes: &[(usize, usize)],
    ) -> (res: (usize, usize))
        requires
            first_range_in(self.canonicalized_header@, subject_idxes@),
            addr_idxes@.len() > 0,
        ensures
            res == addr_idxes@[0],
    {
        addr_idxes[0]
    }

    /// The message ID: the canonicalized header at the first range that the
    /// search for it found.
    pub fn get_message_id(&self, message_id_idxes: &[(usize, usize)]) -> (res: String)
        requires
            first_range_in(self.canonicalized_header@, message_id_idxes@),
        ensures
            res@ == first_range_text(self.canonicalized_header@, message_id_idxes@),
    {
        let idxes = message_id_idxes[0];
        slice_text(self.canonicalized_header.as_str(), idxes.0, idxes.1)
    }

    /// The command: empty when the body hash check is ignored; else, where the
    /// search in the canonicalized body found ranges, the body at the first of
    /// them with soft line breaks `=\r\n` removed; else, where the search in the
    /// cleaned body found ranges, the cleaned body at the first of them; else empty.
    pub fn get_command(
        &self,
        ignore_body_hash_check: bool,
        in_body: Option<&[(usize, usize)]>,
        in_cleaned_body: Option<&[(usize, usize)]>,
    ) -> (res: String)
        requires
            command_ranges_valid(
                self,
                ignore_body_hash_check,
                ranges_view(in_body),
                ranges_view(in_cleaned_body),
            ),
        ensures
            res@ == command_text(
                self,
                ignore_body_hash_check,
                ranges_view(in_body),
                ranges_view(in_cleaned_body),
            ),
    {
        if ignore_body_hash_check {
            return String::new();
        }
        match in_body {
            Some(ranges) => {
                let idxes = ranges[0];
                let text = slice_text(self.canonicalized_body.as_str(), idxes.0, idxes.1);
                remove_soft_breaks_in_text(text.as_str())
            },
            None => match in_cleaned_body {
                Some(ranges) => {
                    let idxes = ranges[0];
                    slice_text(self.cleaned_body.as_str(), idxes.0, idxes.1)
                },
                None => String::new(),
            },
        }
    }

    /// The index range of the command: `(0, 0)` when the body hash check is
    /// ignored, else the first range that the search in the cleaned body found.
    pub fn get_command_idxes(&self, ignore_body_hash_check: bool, command_idxes: &[(usize, usize)]) -> (res: (
        usize,
        usize,
    ))
        requires
            !ignore_body_hash_check ==> command_idxes@.len() > 0,
        ensures
            res == (if ignore_body_hash_check {
                (0usize, 0usize)
            } else {
                command_idxes@[0]
            }),
    {
        if ignore_body_hash_check {
            (0, 0)
        } else {
            command_idxes[0]
        }
    }

    /// The cleaned email body, with quoted-printable soft line breaks removed.
    pub fn get_body_with_soft_line_breaks(&self) -> (res: Result<String, EmailError>)
        ensures
            res matches Ok(body) && body@ == self.cleaned_body@,
    {
        Ok(self.cleaned_body.clone())
    }
}

} // verus!
