use vissue::digest::{hex, CorpusDigest, ProjectDigest};
use vissue::textmap::TextMap;

fn exports() -> TextMap<String> {
    let mut m = TextMap::new();
    m.insert("alpha".into(), "{\"id\":\"a-1\"}\n{\"id\":\"a-2\"}\n".into());
    m.insert("beta".into(), "{\"id\":\"b-1\"}\n\n".into());
    m
}

#[test]
fn hex_is_sixteen_lowercase_digits() {
    assert_eq!(hex(0), "0000000000000000");
    assert_eq!(hex(255), "00000000000000ff");
    assert_eq!(hex(u64::MAX), "ffffffffffffffff");
    assert_eq!(hex(0x0123_4567_89ab_cdef), format!("{:016x}", 0x0123_4567_89ab_cdefu64));
}

#[test]
fn a_project_digest_hashes_its_export() {
    let p = ProjectDigest::of_export("alpha", "x\n\n  \ny\n");
    assert_eq!(p.issues, 2);
    assert_eq!(p.digest, format!("{:016x}", xxhash_rust::xxh3::xxh3_64(b"x\n\n  \ny\n")));
    assert_ne!(p.digest, "x\n\n  \ny\n");
}

#[test]
fn selection_order_does_not_change_the_digest() {
    let ex = exports();
    let forward = CorpusDigest::from_exports(&["alpha".into(), "beta".into()], &ex, 3);
    let backward = CorpusDigest::from_exports(&["beta".into(), "alpha".into(), "beta".into()], &ex, 3);
    assert_eq!(forward, backward);
    assert_eq!(forward.project_names(), vec!["alpha", "beta"]);
    assert_eq!(forward.issues, 3);
    assert_eq!(forward.combined.len(), 16);
}

#[test]
fn the_combined_digest_follows_the_parts() {
    let ex = exports();
    let before = CorpusDigest::from_exports(&["alpha".into(), "beta".into()], &ex, 1);
    let mut changed = exports();
    changed.insert("alpha".into(), "{\"id\":\"a-1\"}\n".into());
    let after = CorpusDigest::from_exports(&["alpha".into(), "beta".into()], &changed, 1);
    assert_ne!(before.combined, after.combined);
    assert_ne!(before.digest_of("alpha"), after.digest_of("alpha"));
    assert_eq!(before.digest_of("beta"), after.digest_of("beta"));
    assert_eq!(before.digest_of("gamma"), None);
    let material = format!(
        "alpha={}\nbeta={}\n",
        before.digest_of("alpha").unwrap(),
        before.digest_of("beta").unwrap()
    );
    assert_eq!(
        before.combined,
        format!("{:016x}", xxhash_rust::xxh3::xxh3_64(material.as_bytes()))
    );
}

#[test]
fn a_missing_export_counts_as_empty() {
    let ex = exports();
    let d = CorpusDigest::from_exports(&["gamma".into()], &ex, 0);
    assert_eq!(d.projects.len(), 1);
    assert_eq!(d.projects[0].issues, 0);
    assert_eq!(d.projects[0].digest, format!("{:016x}", xxhash_rust::xxh3::xxh3_64(b"")));
}

#[test]
fn the_rendered_form_names_every_project() {
    let ex = exports();
    let digest = CorpusDigest::from_exports(&["alpha".into(), "beta".into()], &ex, 9);
    let text = digest.render();
    assert!(text.starts_with(&format!("combined={}", digest.combined)), "{text}");
    assert!(text.contains("alpha"), "{text}");
    assert!(text.contains("beta"), "{text}");
    assert_eq!(text.lines().count(), 3, "{text}");
    let expected = format!(
        "combined={} issues=3 generation=9 projects=2\n{}  {:>6}  alpha\n{}  {:>6}  beta\n",
        digest.combined,
        digest.projects[0].digest,
        2,
        digest.projects[1].digest,
        1
    );
    assert_eq!(text, expected);
}
