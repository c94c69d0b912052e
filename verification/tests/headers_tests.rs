use parsed_email::EmailHeaders;

fn fields(pairs: &[(&str, &str)]) -> Vec<(String, String)> {
    pairs
        .iter()
        .map(|(k, v)| (k.to_string(), v.to_string()))
        .collect()
}

#[test]
fn groups_values_by_name_in_order() {
    let headers = EmailHeaders::new_from_mail(&fields(&[
        ("Received", "first"),
        ("From", "alice@example.com"),
        ("Received", "second"),
        ("Received", "third"),
    ]));
    assert_eq!(
        headers.get_header("Received"),
        Some(vec!["first".to_string(), "second".to_string(), "third".to_string()])
    );
    assert_eq!(
        headers.get_header("From"),
        Some(vec!["alice@example.com".to_string()])
    );
}

#[test]
fn missing_header_is_none() {
    let headers = EmailHeaders::new_from_mail(&fields(&[("From", "a@b.c")]));
    assert_eq!(headers.get_header("To"), None);
}

#[test]
fn header_names_are_compared_exactly() {
    let headers = EmailHeaders::new_from_mail(&fields(&[("Subject", "hi")]));
    assert_eq!(headers.get_header("subject"), None);
    assert_eq!(headers.get_header("Subject"), Some(vec!["hi".to_string()]));
}

#[test]
fn no_fields_no_headers() {
    let headers = EmailHeaders::new_from_mail(&Vec::new());
    assert!(headers.entries().is_empty());
    assert_eq!(headers.get_header(""), None);
}

#[test]
fn entries_keep_first_occurrence_order() {
    let headers = EmailHeaders::new_from_mail(&fields(&[("B", "1"), ("A", "2"), ("B", "3")]));
    let entries = headers.entries();
    assert_eq!(entries.len(), 2);
    assert_eq!(entries[0], ("B".to_string(), vec!["1".to_string(), "3".to_string()]));
    assert_eq!(entries[1], ("A".to_string(), vec!["2".to_string()]));
}

#[test]
fn clone_keeps_headers() {
    let headers = EmailHeaders::new_from_mail(&fields(&[("X", "1"), ("X", "2")]));
    let copy = headers.clone();
    assert_eq!(copy.get_header("X"), headers.get_header("X"));
}

#[test]
fn from_entries_refuses_repeated_names() {
    let ok = EmailHeaders::from_entries(vec![
        ("A".to_string(), vec!["1".to_string()]),
        ("B".to_string(), vec![]),
    ]);
    let ok = ok.expect("distinct names");
    assert_eq!(ok.get_header("B"), Some(vec![]));
    let repeated = EmailHeaders::from_entries(vec![
        ("A".to_string(), vec!["1".to_string()]),
        ("A".to_string(), vec!["2".to_string()]),
    ]);
    assert!(repeated.is_none());
}
