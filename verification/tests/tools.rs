use vissue::tools::priority_char;

#[test]
fn priority_takes_the_first_character() {
    assert_eq!(priority_char(Some(&"A".to_string())), Some('A'));
    assert_eq!(priority_char(Some(&" b".to_string())), Some('b'));
    assert_eq!(priority_char(Some(&String::new())), None);
    assert_eq!(priority_char(None), None);
}

#[test]
fn a_blank_priority_is_none() {
    assert_eq!(priority_char(Some(&"   ".to_string())), None);
    assert_eq!(priority_char(Some(&"\tC!".to_string())), Some('C'));
}
