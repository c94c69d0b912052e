use parsed_email::text::NumberErrorKind;
use parsed_email::{EmailError, EmailHeaders, ParsedEmail};

const RAW: &str = "From: Alice <alice@example.com>\r\nTo: bob@example.org\r\nSubject: Hello\r\nReceived: one\r\nReceived: two\r\n\r\nbody\r\n";

fn parts(header: &[u8], body: &[u8], signature: &[u8]) -> Result<(Vec<u8>, Vec<u8>, Vec<u8>), String> {
    Ok((header.to_vec(), body.to_vec(), signature.to_vec()))
}

fn sample() -> ParsedEmail {
    ParsedEmail::new_from_raw_email_with_public_key(
        RAW,
        vec![0xab, 0x01],
        parts(
            b"from:Alice <alice@example.com>\r\nsubject:Send 0.1 ETH to bob@example.org\r\nt=1694989812\r\n",
            b"code 12ab=\r\ncd end\r\n",
            &[0xde, 0xad, 0x00, 0x0f],
        ),
    )
    .expect("valid email")
}

#[test]
fn builds_parts_from_raw_email() {
    let email = sample();
    assert_eq!(email.canonicalized_body, "code 12ab=\r\ncd end\r\n");
    assert_eq!(email.cleaned_body, "code 12abcd end\r\n\0\0\0");
    assert_eq!(email.signature, vec![0xde, 0xad, 0x00, 0x0f]);
    assert_eq!(email.public_key, vec![0xab, 0x01]);
    assert_eq!(
        email.headers.get_header("Received"),
        Some(vec!["one".to_string(), "two".to_string()])
    );
    assert_eq!(
        email.headers.get_header("From"),
        Some(vec!["Alice <alice@example.com>".to_string()])
    );
    assert_eq!(email.headers.get_header("Cc"), None);
}

#[test]
fn mail_parse_error() {
    let res = ParsedEmail::new_from_raw_email_with_public_key(
        " Subject: starts with a space\r\n\r\nbody",
        vec![],
        parts(b"h", b"b", b"s"),
    );
    match res {
        Err(EmailError::MailParse(err)) => assert!(err.to_string().contains("cannot start with a space")),
        other => panic!("unexpected {:?}", other),
    }
}

#[test]
fn canonicalization_error_is_passed_on() {
    let res = ParsedEmail::new_from_raw_email_with_public_key(
        RAW,
        vec![],
        Err("no DKIM-Signature header".to_string()),
    );
    match res {
        Err(EmailError::Canonicalization(message)) => assert_eq!(message, "no DKIM-Signature header"),
        other => panic!("unexpected {:?}", other),
    }
}

#[test]
fn invalid_utf8_header_or_body() {
    let res = ParsedEmail::new_from_raw_email_with_public_key(RAW, vec![], parts(&[0xff], b"b", b""));
    assert!(matches!(res, Err(EmailError::InvalidUtf8(_))));
    let res = ParsedEmail::new_from_raw_email_with_public_key(RAW, vec![], parts(b"ok", &[b'a', 0xc3], b""));
    match res {
        Err(EmailError::InvalidUtf8(err)) => {
            assert_eq!(err.utf8_error().valid_up_to(), 1);
            assert_eq!(err.as_bytes(), &[b'a', 0xc3]);
        }
        other => panic!("unexpected {:?}", other),
    }
}

#[test]
fn signature_and_public_key_strings() {
    let email = sample();
    assert_eq!(email.signature_string(), "0xdead000f");
    assert_eq!(email.public_key_string(), "0xab01");
}

#[test]
fn empty_signature_string() {
    let mut email = sample();
    email.signature = vec![];
    assert_eq!(email.signature_string(), "0x");
}

#[test]
fn from_and_to_addresses() {
    let email = sample();
    // "alice@example.com" sits at bytes 12..29 of the header.
    assert_eq!(email.get_from_addr(&[(12, 29)]), "alice@example.com");
    assert_eq!(email.get_from_addr_idxes(&[(12, 29), (0, 1)]), (12, 29));
    assert_eq!(email.get_to_addr(&[(5, 10)]), "Alice");
}

#[test]
fn domain_of_from_address() {
    let email = sample();
    assert_eq!(email.get_email_domain(&[(12, 29)], &[(6, 17)]), "example.com");
    assert_eq!(email.get_email_domain_idxes(&[(12, 29)], &[(6, 17)]), (6, 17));
}

#[test]
fn subject_and_address_in_subject() {
    let email = sample();
    let subject = email.get_subject_all(&[(40, 71)]);
    assert_eq!(subject, "Send 0.1 ETH to bob@example.org");
    assert_eq!(email.get_subject_all_idxes(&[(40, 71)]), (40, 71));
    assert_eq!(email.get_email_addr_in_subject(&[(40, 71)], &[(16, 31)]), "bob@example.org");
    assert_eq!(email.get_email_addr_in_subject_idxes(&[(40, 71)], &[(16, 31)]), (16, 31));
}

#[test]
fn timestamp_is_parsed() {
    let email = sample();
    assert_eq!(email.get_timestamp(&[(75, 85)]).unwrap(), 1694989812);
    assert_eq!(email.get_timestamp_idxes(&[(75, 85)]), (75, 85));
    assert_eq!(email.get_body_hash_idxes(&[(73, 85)]), (73, 85));
}

fn with_header(header: &str) -> ParsedEmail {
    let mut email = sample();
    email.canonicalized_header = header.to_string();
    email
}

fn timestamp_error(email: &ParsedEmail, range: (usize, usize)) -> NumberErrorKind {
    match email.get_timestamp(&[range]) {
        Err(EmailError::InvalidTimestamp(kind)) => kind,
        other => panic!("unexpected {:?}", other),
    }
}

#[test]
fn timestamp_follows_u64_from_str() {
    let email = with_header("+42|-1|abc|18446744073709551615|18446744073709551616||+|-|99999999999999999999x|1x99999999999999999999");
    assert_eq!(email.get_timestamp(&[(0, 3)]).unwrap(), 42);
    assert_eq!(timestamp_error(&email, (4, 6)), NumberErrorKind::InvalidDigit);
    assert_eq!(timestamp_error(&email, (7, 10)), NumberErrorKind::InvalidDigit);
    assert_eq!(email.get_timestamp(&[(11, 31)]).unwrap(), u64::MAX);
    assert_eq!(timestamp_error(&email, (32, 52)), NumberErrorKind::PosOverflow);
    assert_eq!(timestamp_error(&email, (53, 53)), NumberErrorKind::Empty);
    assert_eq!(timestamp_error(&email, (54, 55)), NumberErrorKind::InvalidDigit);
    assert_eq!(timestamp_error(&email, (56, 57)), NumberErrorKind::InvalidDigit);
    // The first problem met, reading left to right, decides the kind.
    assert_eq!(timestamp_error(&email, (58, 79)), NumberErrorKind::PosOverflow);
    assert_eq!(timestamp_error(&email, (80, 102)), NumberErrorKind::InvalidDigit);
}

#[test]
fn timestamp_error_kinds_match_std() {
    let email = with_header("|+|12a|18446744073709551616|007");
    let cases = [(0, 0), (1, 2), (3, 6), (7, 27), (28, 31)];
    for (start, end) in cases {
        let text = &email.canonicalized_header[start..end];
        match (text.parse::<u64>(), email.get_timestamp(&[(start, end)])) {
            (Ok(a), Ok(b)) => assert_eq!(a, b),
            (Err(e), Err(EmailError::InvalidTimestamp(kind))) => {
                let expected = match e.kind() {
                    std::num::IntErrorKind::Empty => NumberErrorKind::Empty,
                    std::num::IntErrorKind::InvalidDigit => NumberErrorKind::InvalidDigit,
                    std::num::IntErrorKind::PosOverflow => NumberErrorKind::PosOverflow,
                    other => panic!("unexpected kind {:?}", other),
                };
                assert_eq!(kind, expected);
            }
            other => panic!("std and the library disagree on {:?}: {:?}", text, other),
        }
    }
}

#[test]
fn message_id_slice_with_multibyte_text() {
    let email = with_header("message-id:<é@x>");
    // 'é' takes two bytes: the id is bytes 11..17.
    assert_eq!(email.get_message_id(&[(11, 17)]), "<é@x>");
}

#[test]
fn invitation_code_is_read_from_the_canonicalized_body() {
    let email = sample();
    // bytes 5..9 of the canonicalized body are "12ab".
    assert_eq!(email.get_invitation_code(false, &[(5, 9)]), "12ab");
    assert_eq!(email.get_invitation_code(true, &[(5, 9)]), "12ab");
    assert_eq!(email.get_invitation_code(true, &[(0, 4)]), "code");
    assert_eq!(email.get_invitation_code_idxes(false, &[(5, 9), (0, 1)]), (5, 9));
    assert_eq!(email.get_invitation_code_idxes(true, &[(5, 9)]), (5, 9));
}

#[test]
fn command_from_body_drops_soft_breaks() {
    let email = sample();
    // bytes 5..14 of the canonicalized body are "12ab=\r\ncd".
    assert_eq!(email.get_command(false, Some(&[(5, 14)]), None), "12abcd");
}

#[test]
fn command_falls_back_to_cleaned_body() {
    let email = sample();
    assert_eq!(email.get_command(false, None, Some(&[(5, 11)])), "12abcd");
    assert_eq!(email.get_command(false, None, None), "");
}

#[test]
fn command_is_empty_when_ignoring_body_hash() {
    let email = sample();
    assert_eq!(email.get_command(true, Some(&[(0, 4)]), None), "");
    assert_eq!(email.get_command_idxes(true, &[]), (0, 0));
    assert_eq!(email.get_command_idxes(false, &[(5, 11)]), (5, 11));
}

#[test]
fn bodies() {
    let email = sample();
    assert_eq!(email.get_body().unwrap(), email.canonicalized_body);
    assert_eq!(email.get_cleaned_body().unwrap(), email.cleaned_body);
    assert_eq!(
        email.get_body_with_soft_line_breaks().unwrap(),
        email.get_cleaned_body().unwrap()
    );
}

#[test]
fn headers_of_sample_can_be_rebuilt_from_entries() {
    let email = sample();
    let copy = EmailHeaders::from_entries(email.headers.entries().clone()).unwrap();
    assert_eq!(copy.get_header("Received"), email.headers.get_header("Received"));
}

#[test]
fn cleaned_body_of_multibyte_text() {
    let email = ParsedEmail::new_from_raw_email_with_public_key(
        RAW,
        vec![],
        parts(b"h", "caf\u{e9}=\r\n\u{fc}ber =\r".as_bytes(), b""),
    )
    .unwrap();
    assert_eq!(email.cleaned_body, "caf\u{e9}\u{fc}ber =\r\0\0\0");
    assert_eq!(email.canonicalized_body, "caf\u{e9}=\r\n\u{fc}ber =\r");
}
