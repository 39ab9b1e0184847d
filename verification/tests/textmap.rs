use vissue::textmap::{text_less, TextMap};

#[test]
fn keys_walk_in_string_order() {
    let mut m: TextMap<u32> = TextMap::new();
    for (i, k) in ["b", "a", "ab", "B", "é", "", "a"].iter().enumerate() {
        m.insert((*k).to_string(), i as u32);
    }
    let mut expected: Vec<String> = ["b", "a", "ab", "B", "é", ""].iter().map(|s| s.to_string()).collect();
    expected.sort();
    assert_eq!(m.keys(), expected);
    assert_eq!(m.get("a"), Some(&6));
    assert_eq!(m.len(), 6);
}

#[test]
fn insert_returns_what_it_replaced_and_remove_what_it_dropped() {
    let mut m: TextMap<String> = TextMap::new();
    assert_eq!(m.insert("k".into(), "v1".into()), None);
    assert_eq!(m.insert("k".into(), "v2".into()), Some("v1".to_string()));
    assert_eq!(m.remove("k"), Some("v2".to_string()));
    assert_eq!(m.remove("k"), None);
    assert!(!m.contains_key("k"));
}

#[test]
fn text_order_matches_string_order() {
    let words = ["", "a", "aa", "ab", "b", "Z", "é", "z", "a\u{10000}", "a\u{ffff}"];
    for x in words {
        for y in words {
            let xs: Vec<char> = x.chars().collect();
            let ys: Vec<char> = y.chars().collect();
            assert_eq!(text_less(&xs, &ys), x < y, "{x:?} < {y:?}");
        }
    }
}

#[test]
fn a_clone_keeps_every_entry() {
    let mut m: TextMap<String> = TextMap::new();
    m.insert("x".into(), "1".into());
    m.insert("w".into(), "2".into());
    let c = m.clone();
    assert_eq!(c.keys(), vec!["w", "x"]);
    assert_eq!(c.get("x").map(String::as_str), Some("1"));
    assert_eq!(c.key_at(0), "w");
    assert_eq!(c.value_at(1), "1");
}
