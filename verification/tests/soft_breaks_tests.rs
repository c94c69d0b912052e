use parsed_email::{find_index_in_body, remove_quoted_printable_soft_breaks};

#[test]
fn removes_a_soft_break_and_pads() {
    let (cleaned, map) = remove_quoted_printable_soft_breaks(b"hello=\r\nworld".to_vec());
    let mut expected = b"helloworld".to_vec();
    expected.extend_from_slice(&[0, 0, 0]);
    assert_eq!(cleaned, expected);
    assert_eq!(
        map,
        vec![0, 1, 2, 3, 4, 8, 9, 10, 11, 12, usize::MAX, usize::MAX, usize::MAX]
    );
}

#[test]
fn keeps_body_without_soft_breaks() {
    let body = b"plain text\r\nwith = sign".to_vec();
    let (cleaned, map) = remove_quoted_printable_soft_breaks(body.clone());
    assert_eq!(cleaned, body);
    assert_eq!(map, (0..body.len()).collect::<Vec<usize>>());
}

#[test]
fn empty_body() {
    let (cleaned, map) = remove_quoted_printable_soft_breaks(Vec::new());
    assert!(cleaned.is_empty());
    assert!(map.is_empty());
}

#[test]
fn incomplete_soft_breaks_at_the_end_are_kept() {
    let (cleaned, map) = remove_quoted_printable_soft_breaks(b"ab=\r".to_vec());
    assert_eq!(cleaned, b"ab=\r".to_vec());
    assert_eq!(map, vec![0, 1, 2, 3]);
    let (cleaned, map) = remove_quoted_printable_soft_breaks(b"ab=".to_vec());
    assert_eq!(cleaned, b"ab=".to_vec());
    assert_eq!(map, vec![0, 1, 2]);
}

#[test]
fn consecutive_soft_breaks() {
    let (cleaned, map) = remove_quoted_printable_soft_breaks(b"=\r\n=\r\nx=\r\n".to_vec());
    assert_eq!(cleaned, vec![b'x', 0, 0, 0, 0, 0, 0, 0, 0, 0]);
    assert_eq!(map[0], 6);
    assert!(map[1..].iter().all(|&m| m == usize::MAX));
}

#[test]
fn scan_does_not_rescan_joined_bytes() {
    // `==\r\n\r\n`: the second `=` starts the soft break; what is left is `=\r\n`.
    let (cleaned, map) = remove_quoted_printable_soft_breaks(b"==\r\n\r\n".to_vec());
    assert_eq!(cleaned, vec![b'=', b'\r', b'\n', 0, 0, 0]);
    assert_eq!(map, vec![0, 4, 5, usize::MAX, usize::MAX, usize::MAX]);
}

#[test]
fn index_map_points_back_at_kept_bytes() {
    let body = b"a=\r\nb=3D=\r\nc".to_vec();
    let (cleaned, map) = remove_quoted_printable_soft_breaks(body.clone());
    for (k, &m) in map.iter().enumerate() {
        if m != usize::MAX {
            assert_eq!(body[m], cleaned[k]);
        } else {
            assert_eq!(cleaned[k], 0);
        }
    }
    assert_eq!(&cleaned[..6], b"ab=3Dc");
}

#[test]
fn find_index_first_occurrence() {
    let body = b"abcabc".to_vec();
    assert_eq!(find_index_in_body(Some(&body), "bc"), 1);
    assert_eq!(find_index_in_body(Some(&body), "abc"), 0);
    assert_eq!(find_index_in_body(Some(&body), "cab"), 2);
}

#[test]
fn find_index_defaults_to_zero() {
    let body = b"abcabc".to_vec();
    assert_eq!(find_index_in_body(None, "bc"), 0);
    assert_eq!(find_index_in_body(Some(&body), ""), 0);
    assert_eq!(find_index_in_body(Some(&body), "xyz"), 0);
    assert_eq!(find_index_in_body(Some(&body), "abcabcabc"), 0);
}

#[test]
fn find_index_multibyte_pattern() {
    let body = "prix: 5€ et 6€".as_bytes().to_vec();
    assert_eq!(find_index_in_body(Some(&body), "€"), 7);
}

#[test]
fn removal_of_joined_parts() {
    let a = b"ab=\r\ncd".to_vec();
    let b = b"x=\r\ny=".to_vec();
    let joined = [a.clone(), b.clone()].concat();
    let (ca, ma) = remove_quoted_printable_soft_breaks(a.clone());
    let (cb, mb) = remove_quoted_printable_soft_breaks(b.clone());
    let (c, m) = remove_quoted_printable_soft_breaks(joined.clone());
    let ka = ma.iter().filter(|&&i| i != usize::MAX).count();
    let kb = mb.iter().filter(|&&i| i != usize::MAX).count();
    assert_eq!(c[..ka + kb], [&ca[..ka], &cb[..kb]].concat()[..]);
    let shifted: Vec<usize> = mb[..kb].iter().map(|i| i + a.len()).collect();
    assert_eq!(m[..ka + kb], [&ma[..ka], &shifted[..]].concat()[..]);
    assert!(c[ka + kb..].iter().all(|&x| x == 0));
    assert!(m[ka + kb..].iter().all(|&x| x == usize::MAX));
}
