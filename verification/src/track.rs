//! Metadata record for a stored audio track.
//!
//! Tracks are the application payload replicated through the gossip
//! layer; the record itself is plain data keyed by a content fingerprint.

use vstd::prelude::*;

verus! {

/// A single track: optional descriptive fields plus the acoustic
/// fingerprint and the storage key that identify it.
#[derive(Clone, Debug)]
pub struct Track {
    pub title: Option<String>,
    pub album: Option<String>,
    pub interpret: Option<String>,
    pub conductor: Option<String>,
    pub composer: Option<String>,
    pub fingerprint: String,
    pub key: String,
}

impl Track {
    /// A track known only by its key and fingerprint, with every
    /// descriptive field absent.
    pub fn empty(key: &str, fingerprint: &str) -> (r: Track)
        ensures
            r.key@ == key@,
            r.fingerprint@ == fingerprint@,
            r.title is None,
            r.album is None,
            r.interpret is None,
            r.conductor is None,
            r.composer is None,
    {
        Track {
            key: key.to_owned(),
            fingerprint: fingerprint.to_owned(),
            title: None,
            album: None,
            interpret: None,
            conductor: None,
            composer: None,
        }
    }

    /// A track with every field given by the caller.
    pub fn new(
        key: &str,
        fingerprint: &str,
        title: Option<String>,
        album: Option<String>,
        interpret: Option<String>,
        conductor: Option<String>,
        composer: Option<String>,
    ) -> (r: Track)
        ensures
            r.key@ == key@,
            r.fingerprint@ == fingerprint@,
            r.title == title,
            r.album == album,
            r.interpret == interpret,
            r.conductor == conductor,
            r.composer == composer,
    {
        Track {
            key: key.to_owned(),
            fingerprint: fingerprint.to_owned(),
            title,
            album,
            interpret,
            conductor,
            composer,
        }
    }
}

} // verus!
