use epub_cache::errors::EpubError;
use epub_cache::ops::{
    batch_text_commit, batch_text_split, batch_binary_commit, batch_binary_split,
    batch_write_commit, delete_commit, install_session, open_decision, read_binary_step,
    read_text_step, rename_commit, require_loaded, write_binary_commit, write_text_commit,
    BinarySource, OpenDecision, TextSource,
};
use epub_cache::session::Session;

fn s(x: &str) -> String {
    String::from(x)
}

#[test]
fn identity_gating_rejects_other_identities() {
    // A session established only for identity A refuses operations naming B,
    // even though A's session still exists.
    let mut store: Option<Session> = None;
    install_session(&mut store, &s("/books/a.epub"));
    assert!(require_loaded(&store, &s("/books/a.epub")).is_ok());
    assert_eq!(
        require_loaded(&store, &s("/books/b.epub")),
        Err(EpubError::NotLoaded)
    );
    assert!(matches!(
        read_text_step(&store, &s("/books/b.epub"), &s("OEBPS/x.html")),
        Err(EpubError::NotLoaded)
    ));
}

#[test]
fn nothing_loaded_rejects_everything() {
    let store: Option<Session> = None;
    assert_eq!(require_loaded(&store, &s("/a.epub")), Err(EpubError::NotLoaded));
}

#[test]
fn open_decision_reuses_matching_session() {
    let mut store: Option<Session> = None;
    assert_eq!(open_decision(&store, &s("/a.epub")), OpenDecision::Extract);
    install_session(&mut store, &s("/a.epub"));
    assert_eq!(open_decision(&store, &s("/a.epub")), OpenDecision::Reuse);
    assert_eq!(open_decision(&store, &s("/b.epub")), OpenDecision::Extract);
}

#[test]
fn write_then_read_returns_new_content() {
    // Write visibility: a committed text write is immediately served back.
    let mut store: Option<Session> = None;
    let id = s("/a.epub");
    install_session(&mut store, &id);
    write_text_commit(&mut store, &id, &s("OEBPS/ch1.html"), &s("<p>new</p>"));
    match read_text_step(&store, &id, &s("OEBPS/ch1.html")) {
        Ok(TextSource::Cached(c)) => assert_eq!(c, "<p>new</p>"),
        _ => panic!("expected cache hit"),
    }
}

#[test]
fn fresh_session_reads_come_from_workdir() {
    let mut store: Option<Session> = None;
    let id = s("/a.epub");
    install_session(&mut store, &id);
    assert!(matches!(
        read_text_step(&store, &id, &s("OEBPS/ch1.html")),
        Ok(TextSource::FromWorkdir)
    ));
    assert!(matches!(
        read_binary_step(&store, &id, &s("OEBPS/img.png")),
        Ok(BinarySource::FromWorkdir)
    ));
}

#[test]
fn batch_read_populates_cache_for_single_reads() {
    // Cache coherence: a batch read of P followed by a single read of P
    // returns the same content with no further disk or archive access — the
    // single read is a cache hit.
    let mut store: Option<Session> = None;
    let id = s("/a.epub");
    install_session(&mut store, &id);
    let paths = vec![s("OEBPS/a.html"), s("OEBPS/b.html")];
    let batch = batch_text_split(&store, &id, &paths).expect("loaded");
    assert_eq!(batch.hits.len(), 0);
    assert_eq!(batch.misses, paths);
    // The embedding would now read the misses out of the original archive.
    let fetched = vec![(s("OEBPS/a.html"), s("alpha")), (s("OEBPS/b.html"), s("beta"))];
    let results = batch_text_commit(&mut store, &id, batch.hits, fetched);
    assert_eq!(results.len(), 2);
    match read_text_step(&store, &id, &s("OEBPS/a.html")) {
        Ok(TextSource::Cached(c)) => assert_eq!(c, "alpha"),
        _ => panic!("expected cache hit"),
    }
    // A second batch read finds both cached.
    let batch2 = batch_text_split(&store, &id, &paths).expect("loaded");
    assert_eq!(batch2.misses.len(), 0);
    assert_eq!(batch2.hits.len(), 2);
    assert_eq!(batch2.hits[0], (s("OEBPS/a.html"), s("alpha")));
    assert_eq!(batch2.hits[1], (s("OEBPS/b.html"), s("beta")));
}

#[test]
fn binary_batch_round_trip() {
    let mut store: Option<Session> = None;
    let id = s("/a.epub");
    install_session(&mut store, &id);
    let paths = vec![s("OEBPS/img.png")];
    let batch = batch_binary_split(&store, &id, &paths).expect("loaded");
    assert_eq!(batch.misses.len(), 1);
    let fetched = vec![(s("OEBPS/img.png"), vec![1u8, 2, 3])];
    let results = batch_binary_commit(&mut store, &id, batch.hits, fetched);
    assert_eq!(results[0].1, vec![1u8, 2, 3]);
    match read_binary_step(&store, &id, &s("OEBPS/img.png")) {
        Ok(BinarySource::Cached(c)) => assert_eq!(c, vec![1u8, 2, 3]),
        _ => panic!("expected cache hit"),
    }
}

#[test]
fn batch_split_rejects_wrong_identity() {
    let mut store: Option<Session> = None;
    install_session(&mut store, &s("/a.epub"));
    let r = batch_text_split(&store, &s("/b.epub"), &vec![s("x")]);
    assert!(r.is_err());
}

#[test]
fn binary_write_invalidates_cached_entries() {
    let mut store: Option<Session> = None;
    let id = s("/a.epub");
    install_session(&mut store, &id);
    write_text_commit(&mut store, &id, &s("OEBPS/f.html"), &s("text"));
    // A binary write to the same path drops the stale entries instead of
    // caching the bytes.
    write_binary_commit(&mut store, &id, &s("OEBPS/f.html"));
    assert!(matches!(
        read_text_step(&store, &id, &s("OEBPS/f.html")),
        Ok(TextSource::FromWorkdir)
    ));
    assert!(matches!(
        read_binary_step(&store, &id, &s("OEBPS/f.html")),
        Ok(BinarySource::FromWorkdir)
    ));
}

#[test]
fn batch_write_forces_cold_rereads() {
    let mut store: Option<Session> = None;
    let id = s("/a.epub");
    install_session(&mut store, &id);
    write_text_commit(&mut store, &id, &s("OEBPS/f.html"), &s("old"));
    batch_write_commit(&mut store, &id, &s("OEBPS/f.html"));
    assert!(matches!(
        read_text_step(&store, &id, &s("OEBPS/f.html")),
        Ok(TextSource::FromWorkdir)
    ));
}

#[test]
fn delete_invalidates_path_and_subtree() {
    let mut store: Option<Session> = None;
    let id = s("/a.epub");
    install_session(&mut store, &id);
    write_text_commit(&mut store, &id, &s("OEBPS/a.html"), &s("a"));
    write_text_commit(&mut store, &id, &s("OEBPS/sub/b.html"), &s("b"));
    write_text_commit(&mut store, &id, &s("other.html"), &s("o"));
    delete_commit(&mut store, &id, &s("OEBPS"));
    assert!(matches!(
        read_text_step(&store, &id, &s("OEBPS/a.html")),
        Ok(TextSource::FromWorkdir)
    ));
    assert!(matches!(
        read_text_step(&store, &id, &s("OEBPS/sub/b.html")),
        Ok(TextSource::FromWorkdir)
    ));
    match read_text_step(&store, &id, &s("other.html")) {
        Ok(TextSource::Cached(c)) => assert_eq!(c, "o"),
        _ => panic!("unrelated entry should stay cached"),
    }
}

#[test]
fn delete_does_not_invalidate_name_prefix_siblings() {
    // "OEBPS2/x.html" is not under "OEBPS": only the directory boundary
    // counts, not a bare name prefix.
    let mut store: Option<Session> = None;
    let id = s("/a.epub");
    install_session(&mut store, &id);
    write_text_commit(&mut store, &id, &s("OEBPS2/x.html"), &s("keep"));
    delete_commit(&mut store, &id, &s("OEBPS"));
    match read_text_step(&store, &id, &s("OEBPS2/x.html")) {
        Ok(TextSource::Cached(c)) => assert_eq!(c, "keep"),
        _ => panic!("sibling with a name prefix should stay cached"),
    }
}

#[test]
fn rename_invalidates_old_and_new_paths() {
    let mut store: Option<Session> = None;
    let id = s("/a.epub");
    install_session(&mut store, &id);
    write_text_commit(&mut store, &id, &s("OEBPS/old.html"), &s("old"));
    write_text_commit(&mut store, &id, &s("OEBPS/new.html"), &s("stale"));
    rename_commit(&mut store, &id, &s("OEBPS/old.html"), &s("OEBPS/new.html"));
    assert!(matches!(
        read_text_step(&store, &id, &s("OEBPS/old.html")),
        Ok(TextSource::FromWorkdir)
    ));
    assert!(matches!(
        read_text_step(&store, &id, &s("OEBPS/new.html")),
        Ok(TextSource::FromWorkdir)
    ));
}

#[test]
fn reopening_other_archive_discards_caches() {
    let mut store: Option<Session> = None;
    install_session(&mut store, &s("/a.epub"));
    write_text_commit(&mut store, &s("/a.epub"), &s("x.html"), &s("content"));
    // Opening a different archive replaces the session wholesale.
    install_session(&mut store, &s("/b.epub"));
    assert_eq!(
        require_loaded(&store, &s("/a.epub")),
        Err(EpubError::NotLoaded)
    );
    assert!(matches!(
        read_text_step(&store, &s("/b.epub"), &s("x.html")),
        Ok(TextSource::FromWorkdir)
    ));
}

#[test]
fn error_messages_are_descriptive() {
    assert_eq!(EpubError::NotLoaded.message(), "archive not loaded");
    assert_eq!(EpubError::ArchiveFormat.message(), "not a valid archive");
    assert_eq!(EpubError::Filesystem.message(), "filesystem operation failed");
    assert_eq!(EpubError::Pattern.message(), "invalid pattern");
}
