use vissue::peercred::{accept_peer, current_uid, uid_matches};

#[test]
fn same_uid_is_accepted() {
    assert!(accept_peer(current_uid()));
}

#[test]
fn other_uid_is_rejected() {
    let other = current_uid().wrapping_add(1);
    assert!(!accept_peer(other));
    assert!(!uid_matches(3, 4));
    assert!(uid_matches(7, 7));
}

#[test]
fn the_check_names_the_uid_it_compared_against() {
    let (ok, own) = vissue::peercred::check_peer(current_uid());
    assert!(ok);
    assert_eq!(own, current_uid());
    let (ok, _) = vissue::peercred::check_peer(current_uid().wrapping_add(1));
    assert!(!ok);
}
