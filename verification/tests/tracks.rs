//! The track record constructors.

use hex_gossip::track::Track;

#[test]
fn empty_track_has_only_key_and_fingerprint() {
    let t = Track::empty("key-1", "fp-1");
    assert_eq!(t.key, "key-1");
    assert_eq!(t.fingerprint, "fp-1");
    assert!(t.title.is_none());
    assert!(t.album.is_none());
    assert!(t.interpret.is_none());
    assert!(t.conductor.is_none());
    assert!(t.composer.is_none());
}

#[test]
fn new_track_keeps_every_field() {
    let t = Track::new(
        "key-2",
        "fp-2",
        Some("a title".to_string()),
        None,
        Some("someone".to_string()),
        None,
        Some("a composer".to_string()),
    );
    assert_eq!(t.key, "key-2");
    assert_eq!(t.fingerprint, "fp-2");
    assert_eq!(t.title, Some("a title".to_string()));
    assert_eq!(t.album, None);
    assert_eq!(t.interpret, Some("someone".to_string()));
    assert_eq!(t.conductor, None);
    assert_eq!(t.composer, Some("a composer".to_string()));
}
