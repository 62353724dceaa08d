use volume_controller::listing::parse_listing;

fn fields(text: &str) -> Option<Vec<(usize, String, usize, bool)>> {
    parse_listing(text).map(|v| v.into_iter().map(|d| (d.id, d.name, d.volume, d.mute)).collect())
}

#[test]
fn listing_of_two_streams() {
    let got = fields("12 firefox 65536 no\n40 mpv 1000 yes\n").unwrap();
    assert_eq!(got, vec![(12, "firefox".to_string(), 65536, false), (40, "mpv".to_string(), 1000, true)]);
}

#[test]
fn listing_without_final_newline_and_with_crlf() {
    let got = fields("1 a 2 yes\r\n3 b 4 no").unwrap();
    assert_eq!(got, vec![(1, "a".to_string(), 2, true), (3, "b".to_string(), 4, false)]);
}

#[test]
fn empty_listing_has_no_streams() {
    assert_eq!(fields(""), Some(vec![]));
}

#[test]
fn extra_fields_are_ignored_and_plus_sign_is_read() {
    let got = fields("+7 app +09 yes extra words\n").unwrap();
    assert_eq!(got, vec![(7, "app".to_string(), 9, true)]);
}

#[test]
fn mute_field_must_be_exactly_yes() {
    let got = fields("1 a 2 Yes\n2 b 3 yess\n3 c 4 ye\n").unwrap();
    assert!(got.iter().all(|r| !r.3));
}

#[test]
fn malformed_lines_reject_the_listing() {
    assert_eq!(fields("1 a 2\n"), None);
    assert_eq!(fields("x a 2 no\n"), None);
    assert_eq!(fields("1 a -2 no\n"), None);
    assert_eq!(fields("1 a + no\n"), None);
    assert_eq!(fields("1  a 2 no\n"), None);
    assert_eq!(fields("1 a 2 no\n\n"), None);
    assert_eq!(fields("99999999999999999999999 a 2 no\n"), None);
}

#[test]
fn largest_id_is_read() {
    let text = format!("{} a 0 no", usize::MAX);
    assert_eq!(fields(&text), Some(vec![(usize::MAX, "a".to_string(), 0, false)]));
}

#[test]
fn names_keep_non_ascii_characters() {
    let got = fields("5 пульс 10 no\n").unwrap();
    assert_eq!(got[0].1, "пульс");
}
