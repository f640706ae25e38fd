//! The operations of the archive subsystem, as decision steps over the
//! optional session. Every operation first gates on the caller's archive
//! identity; reads are served from the cache or referred to disk; mutations
//! update or invalidate cache entries once the embedding has touched the
//! working directory.
//!
//! The embedding drives each operation: it asks this layer what to do, does
//! the disk or archive work the answer names, and feeds results back through
//! the matching `*_commit` function.

use vstd::prelude::*;
use crate::errors::EpubError;
use crate::session::Session;

verus! {

/// The store holds a session whose identity matches the caller's.
pub open spec fn loaded_for(store: Option<Session>, id: Seq<char>) -> bool {
    match store {
        Option::Some(s) => s.id() == id,
        Option::None => false,
    }
}

/// The store's session, if any, is well formed.
pub open spec fn store_wf(store: Option<Session>) -> bool {
    match store {
        Option::Some(s) => s.wf(),
        Option::None => true,
    }
}

/// Every operation requires a session matching the caller's identity; a call
/// naming any other identity fails with "not loaded", whatever else exists.
pub fn require_loaded(store: &Option<Session>, identity: &String) -> (r: Result<(), EpubError>)
    ensures
        r.is_ok() <==> loaded_for(*store, identity@),
        r.is_err() ==> r == Result::<(), EpubError>::Err(EpubError::NotLoaded),
{
    match store {
        Option::Some(s) => {
            if s.matches(identity) {
                Result::Ok(())
            } else {
                Result::Err(EpubError::NotLoaded)
            }
        },
        Option::None => Result::Err(EpubError::NotLoaded),
    }
}

/// What opening an archive must do first.
#[derive(Clone, Copy, Debug, PartialEq, Eq, Structural)]
pub enum OpenDecision {
    /// The session already covers this identity: reuse its working directory,
    /// re-reading nothing from the archive.
    Reuse,
    /// Extract the archive into a fresh working directory and then install a
    /// fresh session.
    Extract,
}

/// Decides whether opening the named archive may reuse the live session.
pub fn open_decision(store: &Option<Session>, identity: &String) -> (r: OpenDecision)
    ensures
        r == OpenDecision::Reuse <==> loaded_for(*store, identity@),
        r == OpenDecision::Reuse || r == OpenDecision::Extract,
{
    match store {
        Option::Some(s) => {
            if s.matches(identity) {
                OpenDecision::Reuse
            } else {
                OpenDecision::Extract
            }
        },
        Option::None => OpenDecision::Extract,
    }
}

/// Installs a fresh session for a newly extracted archive, discarding any
/// previous session together with its caches.
pub fn install_session(store: &mut Option<Session>, identity: &String)
    ensures
        store_wf(*final(store)),
        loaded_for(*final(store), identity@),
        final(store)->Some_0.text_map() == Map::<Seq<char>, Seq<char>>::empty(),
        final(store)->Some_0.bin_map() == Map::<Seq<char>, Seq<u8>>::empty(),
{
    *store = Option::Some(Session::new(identity));
}

/// Where a single text read is served from.
pub enum TextSource {
    /// The cache holds the path; this is the content, and no disk or archive
    /// access is needed.
    Cached(String),
    /// The cache misses; read the path from the working directory (not from
    /// the original archive), and do not cache the result.
    FromWorkdir,
}

/// Where a single binary read is served from.
pub enum BinarySource {
    Cached(Vec<u8>),
    FromWorkdir,
}

/// Decides a single text read: cache hit or working-directory read.
pub fn read_text_step(store: &Option<Session>, identity: &String, path: &String) -> (r: Result<
    TextSource,
    EpubError,
>)
    requires
        store_wf(*store),
    ensures
        match r {
            Result::Ok(TextSource::Cached(c)) => loaded_for(*store, identity@)
                && store->Some_0.text_map().contains_key(path@) && c@
                == store->Some_0.text_map()[path@],
            Result::Ok(TextSource::FromWorkdir) => loaded_for(*store, identity@)
                && !store->Some_0.text_map().contains_key(path@),
            Result::Err(e) => !loaded_for(*store, identity@) && e == EpubError::NotLoaded,
        },
{
    match store {
        Option::Some(s) => {
            if s.matches(identity) {
                match s.get_text(path) {
                    Option::Some(c) => Result::Ok(TextSource::Cached(c.clone())),
                    Option::None => Result::Ok(TextSource::FromWorkdir),
                }
            } else {
                Result::Err(EpubError::NotLoaded)
            }
        },
        Option::None => Result::Err(EpubError::NotLoaded),
    }
}

/// Decides a single binary read: cache hit or working-directory read.
pub fn read_binary_step(store: &Option<Session>, identity: &String, path: &String) -> (r: Result<
    BinarySource,
    EpubError,
>)
    requires
        store_wf(*store),
    ensures
        match r {
            Result::Ok(BinarySource::Cached(c)) => loaded_for(*store, identity@)
                && store->Some_0.bin_map().contains_key(path@) && c@
                == store->Some_0.bin_map()[path@],
            Result::Ok(BinarySource::FromWorkdir) => loaded_for(*store, identity@)
                && !store->Some_0.bin_map().contains_key(path@),
            Result::Err(e) => !loaded_for(*store, identity@) && e == EpubError::NotLoaded,
        },
{
    match store {
        Option::Some(s) => {
            if s.matches(identity) {
                match s.get_binary(path) {
                    Option::Some(c) => Result::Ok(
                        BinarySource::Cached(crate::session::clone_bytes(c)),
                    ),
                    Option::None => Result::Ok(BinarySource::FromWorkdir),
                }
            } else {
                Result::Err(EpubError::NotLoaded)
            }
        },
        Option::None => Result::Err(EpubError::NotLoaded),
    }
}

/// Records a committed text write: the working directory now holds `content`
/// at `path`, and the text cache is updated to it. With no matching session
/// nothing changes.
pub fn write_text_commit(store: &mut Option<Session>, identity: &String, path: &String, content:
    &String)
    requires
        store_wf(*old(store)),
    ensures
        store_wf(*final(store)),
        loaded_for(*old(store), identity@) ==> {
            &&& loaded_for(*final(store), identity@)
            &&& final(store)->Some_0.text_map() == old(store)->Some_0.text_map().insert(
                path@,
                content@,
            )
            &&& final(store)->Some_0.bin_map() == old(store)->Some_0.bin_map()
        },
        !loaded_for(*old(store), identity@) ==> *final(store) == *old(store),
{
    let inner = store.take();
    match inner {
        Option::Some(mut s) => {
            if s.matches(identity) {
                s.cache_text(path, content);
            }
            *store = Option::Some(s);
        },
        Option::None => {
        },
    }
}

/// Records a committed binary write: the path's stale cache entries are
/// dropped from both caches rather than replaced, so the next read comes
/// cold from disk. With no matching session nothing changes.
pub fn write_binary_commit(store: &mut Option<Session>, identity: &String, path: &String)
    requires
        store_wf(*old(store)),
    ensures
        store_wf(*final(store)),
        loaded_for(*old(store), identity@) ==> {
            &&& loaded_for(*final(store), identity@)
            &&& final(store)->Some_0.text_map() == old(store)->Some_0.text_map().remove(path@)
            &&& final(store)->Some_0.bin_map() == old(store)->Some_0.bin_map().remove(path@)
        },
        !loaded_for(*old(store), identity@) ==> *final(store) == *old(store),
{
    let inner = store.take();
    match inner {
        Option::Some(mut s) => {
            if s.matches(identity) {
                s.invalidate_exact(path);
            }
            *store = Option::Some(s);
        },
        Option::None => {
        },
    }
}

/// Records one path of a committed batch write: the path is dropped from
/// both caches, forcing a cold re-read, since batch content may be text or
/// binary alike.
pub fn batch_write_commit(store: &mut Option<Session>, identity: &String, path: &String)
    requires
        store_wf(*old(store)),
    ensures
        store_wf(*final(store)),
        loaded_for(*old(store), identity@) ==> {
            &&& loaded_for(*final(store), identity@)
            &&& final(store)->Some_0.text_map() == old(store)->Some_0.text_map().remove(path@)
            &&& final(store)->Some_0.bin_map() == old(store)->Some_0.bin_map().remove(path@)
        },
        !loaded_for(*old(store), identity@) ==> *final(store) == *old(store),
{
    write_binary_commit(store, identity, path)
}

/// Records a committed deletion: the path, and everything under the
/// directory it names, leaves both caches.
pub fn delete_commit(store: &mut Option<Session>, identity: &String, path: &String)
    requires
        store_wf(*old(store)),
    ensures
        store_wf(*final(store)),
        loaded_for(*old(store), identity@) ==> {
            &&& loaded_for(*final(store), identity@)
            &&& final(store)->Some_0.text_map() == old(store)->Some_0.text_map().remove_keys(
                Set::new(|k: Seq<char>| crate::pathing::path_covers(path@, k)),
            )
            &&& final(store)->Some_0.bin_map() == old(store)->Some_0.bin_map().remove_keys(
                Set::new(|k: Seq<char>| crate::pathing::path_covers(path@, k)),
            )
        },
        !loaded_for(*old(store), identity@) ==> *final(store) == *old(store),
{
    let inner = store.take();
    match inner {
        Option::Some(mut s) => {
            if s.matches(identity) {
                s.invalidate_covered(path);
            }
            *store = Option::Some(s);
        },
        Option::None => {
        },
    }
}

/// Records a committed rename: stale entries for the old path and for
/// anything the new path overwrote leave both caches.
pub fn rename_commit(store: &mut Option<Session>, identity: &String, old_path: &String, new_path:
    &String)
    requires
        store_wf(*old(store)),
    ensures
        store_wf(*final(store)),
        loaded_for(*old(store), identity@) ==> {
            &&& loaded_for(*final(store), identity@)
            &&& final(store)->Some_0.text_map() == old(store)->Some_0.text_map().remove_keys(
                Set::new(|k: Seq<char>| crate::pathing::path_covers(old_path@, k)),
            ).remove_keys(Set::new(|k: Seq<char>| crate::pathing::path_covers(new_path@, k)))
            &&& final(store)->Some_0.bin_map() == old(store)->Some_0.bin_map().remove_keys(
                Set::new(|k: Seq<char>| crate::pathing::path_covers(old_path@, k)),
            ).remove_keys(Set::new(|k: Seq<char>| crate::pathing::path_covers(new_path@, k)))
        },
        !loaded_for(*old(store), identity@) ==> *final(store) == *old(store),
{
    let inner = store.take();
    match inner {
        Option::Some(mut s) => {
            if s.matches(identity) {
                s.invalidate_covered(old_path);
                s.invalidate_covered(new_path);
            }
            *store = Option::Some(s);
        },
        Option::None => {
        },
    }
}

/// The views of a run of paths.
pub open spec fn views_of(paths: Seq<String>) -> Seq<Seq<char>> {
    paths.map_values(|p: String| p@)
}

/// Membership in a map's key set, as a predicate over paths.
pub open spec fn key_in<T>(m: Map<Seq<char>, T>) -> spec_fn(Seq<char>) -> bool {
    |q: Seq<char>| m.contains_key(q)
}

/// Absence from a map's key set, as a predicate over paths.
pub open spec fn key_out<T>(m: Map<Seq<char>, T>) -> spec_fn(Seq<char>) -> bool {
    |q: Seq<char>| !m.contains_key(q)
}

/// The text cache after recording a run of fetched entries, first to last.
pub open spec fn texts_recorded(m: Map<Seq<char>, Seq<char>>, entries: Seq<(String, String)>) -> Map<
    Seq<char>,
    Seq<char>,
>
    decreases entries.len(),
{
    if entries.len() == 0 {
        m
    } else {
        texts_recorded(m, entries.drop_last()).insert(entries.last().0@, entries.last().1@)
    }
}

/// The binary cache after recording a run of fetched entries, first to last.
pub open spec fn bins_recorded(m: Map<Seq<char>, Seq<u8>>, entries: Seq<(String, Vec<u8>)>) -> Map<
    Seq<char>,
    Seq<u8>,
>
    decreases entries.len(),
{
    if entries.len() == 0 {
        m
    } else {
        bins_recorded(m, entries.drop_last()).insert(entries.last().0@, entries.last().1@)
    }
}

/// A batch text read, split into cache hits and paths still to fetch.
pub struct TextBatch {
    /// The requested paths the cache already holds, with their contents, in
    /// request order.
    pub hits: Vec<(String, String)>,
    /// The requested paths to read from the original archive, in request
    /// order.
    pub misses: Vec<String>,
}

/// A batch binary read, split into cache hits and paths still to fetch.
pub struct BinaryBatch {
    pub hits: Vec<(String, Vec<u8>)>,
    pub misses: Vec<String>,
}

/// Splits a batch text read: requested paths already cached are answered at
/// once; the rest are to be fetched from the original archive by name.
pub fn batch_text_split(store: &Option<Session>, identity: &String, paths: &Vec<String>) -> (r:
    Result<TextBatch, EpubError>)
    requires
        store_wf(*store),
    ensures
        match r {
            Result::Ok(b) => {
                &&& loaded_for(*store, identity@)
                &&& b.hits@.map_values(|h: (String, String)| h.0@) == views_of(paths@).filter(
                    key_in(store->Some_0.text_map()),
                )
                &&& forall|i: int|
                    0 <= i < b.hits@.len() ==> store->Some_0.text_map().contains_key(
                        #[trigger] b.hits@[i].0@,
                    ) && b.hits@[i].1@ == store->Some_0.text_map()[b.hits@[i].0@]
                &&& b.misses@.map_values(|p: String| p@) == views_of(paths@).filter(
                    key_out(store->Some_0.text_map()),
                )
            },
            Result::Err(e) => !loaded_for(*store, identity@) && e == EpubError::NotLoaded,
        },
{
    let s = match store {
        Option::Some(s) => {
            if s.matches(identity) {
                s
            } else {
                return Result::Err(EpubError::NotLoaded);
            }
        },
        Option::None => {
            return Result::Err(EpubError::NotLoaded);
        },
    };
    let ghost tm = s.text_map();
    let mut hits: Vec<(String, String)> = Vec::new();
    let mut misses: Vec<String> = Vec::new();
    let n = paths.len();
    let mut i: usize = 0;
    proof {
        reveal(Seq::filter);
        assert(views_of(paths@.take(0)) =~= Seq::<Seq<char>>::empty());
        assert(hits@.map_values(|h: (String, String)| h.0@) =~= Seq::<Seq<char>>::empty());
        assert(misses@.map_values(|p: String| p@) =~= Seq::<Seq<char>>::empty());
        assert(Seq::<Seq<char>>::empty().filter(key_in(tm)) =~= Seq::<Seq<char>>::empty());
        assert(Seq::<Seq<char>>::empty().filter(key_out(tm)) =~= Seq::<Seq<char>>::empty());
    }
    while i < n
        invariant
            s.wf(),
            s.text_map() == tm,
            n == paths@.len(),
            i <= n,
            forall|q: Seq<char>| #[trigger] key_in(tm)(q) == tm.contains_key(q),
            forall|q: Seq<char>| #[trigger] key_out(tm)(q) == !tm.contains_key(q),
            hits@.map_values(|h: (String, String)| h.0@) == views_of(paths@.take(i as int)).filter(
                key_in(tm),
            ),
            forall|j: int|
                0 <= j < hits@.len() ==> tm.contains_key(#[trigger] hits@[j].0@) && hits@[j].1@
                    == tm[hits@[j].0@],
            misses@.map_values(|p: String| p@) == views_of(paths@.take(i as int)).filter(
                key_out(tm),
            ),
        decreases n - i,
    {
        let p = &paths[i];
        proof {
            assert(views_of(paths@.take(i as int + 1)) =~= views_of(paths@.take(i as int)).push(
                p@,
            ));
            views_of(paths@.take(i as int)).lemma_filter_push(p@, key_in(tm));
            views_of(paths@.take(i as int)).lemma_filter_push(p@, key_out(tm));
        }
        match s.get_text(p) {
            Option::Some(c) => {
                hits.push((p.clone(), c.clone()));
                proof {
                    assert(hits@.map_values(|h: (String, String)| h.0@) =~= hits@.drop_last()
                        .map_values(|h: (String, String)| h.0@).push(p@));
                }
            },
            Option::None => {
                misses.push(p.clone());
                proof {
                    assert(misses@.map_values(|q: String| q@) =~= misses@.drop_last().map_values(
                        |q: String| q@,
                    ).push(p@));
                }
            },
        }
        i = i + 1;
    }
    proof {
        assert(paths@.take(n as int) =~= paths@);
    }
    Result::Ok(TextBatch { hits, misses })
}

/// Splits a batch binary read in the same way.
pub fn batch_binary_split(store: &Option<Session>, identity: &String, paths: &Vec<String>) -> (r:
    Result<BinaryBatch, EpubError>)
    requires
        store_wf(*store),
    ensures
        match r {
            Result::Ok(b) => {
                &&& loaded_for(*store, identity@)
                &&& b.hits@.map_values(|h: (String, Vec<u8>)| h.0@) == views_of(paths@).filter(
                    key_in(store->Some_0.bin_map()),
                )
                &&& forall|i: int|
                    0 <= i < b.hits@.len() ==> store->Some_0.bin_map().contains_key(
                        #[trigger] b.hits@[i].0@,
                    ) && b.hits@[i].1@ == store->Some_0.bin_map()[b.hits@[i].0@]
                &&& b.misses@.map_values(|p: String| p@) == views_of(paths@).filter(
                    key_out(store->Some_0.bin_map()),
                )
            },
            Result::Err(e) => !loaded_for(*store, identity@) && e == EpubError::NotLoaded,
        },
{
    let s = match store {
        Option::Some(s) => {
            if s.matches(identity) {
                s
            } else {
                return Result::Err(EpubError::NotLoaded);
            }
        },
        Option::None => {
            return Result::Err(EpubError::NotLoaded);
        },
    };
    let ghost bm = s.bin_map();
    let mut hits: Vec<(String, Vec<u8>)> = Vec::new();
    let mut misses: Vec<String> = Vec::new();
    let n = paths.len();
    let mut i: usize = 0;
    proof {
        reveal(Seq::filter);
        assert(views_of(paths@.take(0)) =~= Seq::<Seq<char>>::empty());
        assert(hits@.map_values(|h: (String, Vec<u8>)| h.0@) =~= Seq::<Seq<char>>::empty());
        assert(misses@.map_values(|p: String| p@) =~= Seq::<Seq<char>>::empty());
        assert(Seq::<Seq<char>>::empty().filter(key_in(bm)) =~= Seq::<Seq<char>>::empty());
        assert(Seq::<Seq<char>>::empty().filter(key_out(bm)) =~= Seq::<Seq<char>>::empty());
    }
    while i < n
        invariant
            s.wf(),
            s.bin_map() == bm,
            n == paths@.len(),
            i <= n,
            forall|q: Seq<char>| #[trigger] key_in(bm)(q) == bm.contains_key(q),
            forall|q: Seq<char>| #[trigger] key_out(bm)(q) == !bm.contains_key(q),
            hits@.map_values(|h: (String, Vec<u8>)| h.0@) == views_of(paths@.take(i as int)).filter(
                key_in(bm),
            ),
            forall|j: int|
                0 <= j < hits@.len() ==> bm.contains_key(#[trigger] hits@[j].0@) && hits@[j].1@
                    == bm[hits@[j].0@],
            misses@.map_values(|p: String| p@) == views_of(paths@.take(i as int)).filter(
                key_out(bm),
            ),
        decreases n - i,
    {
        let p = &paths[i];
        proof {
            assert(views_of(paths@.take(i as int + 1)) =~= views_of(paths@.take(i as int)).push(
                p@,
            ));
            views_of(paths@.take(i as int)).lemma_filter_push(p@, key_in(bm));
            views_of(paths@.take(i as int)).lemma_filter_push(p@, key_out(bm));
        }
        match s.get_binary(p) {
            Option::Some(c) => {
                hits.push((p.clone(), crate::session::clone_bytes(c)));
                proof {
                    assert(hits@.map_values(|h: (String, Vec<u8>)| h.0@) =~= hits@.drop_last()
                        .map_values(|h: (String, Vec<u8>)| h.0@).push(p@));
                }
            },
            Option::None => {
                misses.push(p.clone());
                proof {
                    assert(misses@.map_values(|q: String| q@) =~= misses@.drop_last().map_values(
                        |q: String| q@,
                    ).push(p@));
                }
            },
        }
        i = i + 1;
    }
    proof {
        assert(paths@.take(n as int) =~= paths@);
    }
    Result::Ok(BinaryBatch { hits, misses })
}

/// Joins a batch text read back together: entries fetched from the archive
/// are recorded in the text cache for future hits, and the full result is
/// the cache hits followed by the fetched entries. Paths absent from the
/// archive simply do not appear among `fetched`. With no matching session
/// the fetched entries are still returned but nothing is cached.
pub fn batch_text_commit(
    store: &mut Option<Session>,
    identity: &String,
    hits: Vec<(String, String)>,
    fetched: Vec<(String, String)>,
) -> (r: Vec<(String, String)>)
    requires
        store_wf(*old(store)),
    ensures
        store_wf(*final(store)),
        r@ == hits@ + fetched@,
        loaded_for(*old(store), identity@) ==> {
            &&& loaded_for(*final(store), identity@)
            &&& final(store)->Some_0.text_map() == texts_recorded(
                old(store)->Some_0.text_map(),
                fetched@,
            )
            &&& final(store)->Some_0.bin_map() == old(store)->Some_0.bin_map()
        },
        !loaded_for(*old(store), identity@) ==> *final(store) == *old(store),
{
    let inner = store.take();
    match inner {
        Option::Some(mut s) => {
            if s.matches(identity) {
                let ghost m0 = s.text_map();
                let n = fetched.len();
                let mut i: usize = 0;
                proof {
                    assert(fetched@.take(0) =~= Seq::<(String, String)>::empty());
                }
                while i < n
                    invariant
                        s.wf(),
                        n == fetched@.len(),
                        i <= n,
                        s.id() == identity@,
                        s.bin_map() == old(store)->Some_0.bin_map(),
                        s.text_map() == texts_recorded(m0, fetched@.take(i as int)),
                    decreases n - i,
                {
                    let pair = &fetched[i];
                    s.cache_text(&pair.0, &pair.1);
                    proof {
                        assert(fetched@.take(i as int + 1).drop_last() =~= fetched@.take(i as int));
                        assert(fetched@.take(i as int + 1).last() == fetched@[i as int]);
                    }
                    i = i + 1;
                }
                proof {
                    assert(fetched@.take(n as int) =~= fetched@);
                }
            }
            *store = Option::Some(s);
        },
        Option::None => {
        },
    }
    let mut out = hits;
    let mut rest = fetched;
    out.append(&mut rest);
    out
}

/// Joins a batch binary read back together, recording fetched bytes in the
/// binary cache.
pub fn batch_binary_commit(
    store: &mut Option<Session>,
    identity: &String,
    hits: Vec<(String, Vec<u8>)>,
    fetched: Vec<(String, Vec<u8>)>,
) -> (r: Vec<(String, Vec<u8>)>)
    requires
        store_wf(*old(store)),
    ensures
        store_wf(*final(store)),
        r@ == hits@ + fetched@,
        loaded_for(*old(store), identity@) ==> {
            &&& loaded_for(*final(store), identity@)
            &&& final(store)->Some_0.bin_map() == bins_recorded(
                old(store)->Some_0.bin_map(),
                fetched@,
            )
            &&& final(store)->Some_0.text_map() == old(store)->Some_0.text_map()
        },
        !loaded_for(*old(store), identity@) ==> *final(store) == *old(store),
{
    let inner = store.take();
    match inner {
        Option::Some(mut s) => {
            if s.matches(identity) {
                let ghost m0 = s.bin_map();
                let n = fetched.len();
                let mut i: usize = 0;
                proof {
                    assert(fetched@.take(0) =~= Seq::<(String, Vec<u8>)>::empty());
                }
                while i < n
                    invariant
                        s.wf(),
                        n == fetched@.len(),
                        i <= n,
                        s.id() == identity@,
                        s.text_map() == old(store)->Some_0.text_map(),
                        s.bin_map() == bins_recorded(m0, fetched@.take(i as int)),
                    decreases n - i,
                {
                    let pair = &fetched[i];
                    s.cache_binary(&pair.0, &pair.1);
                    proof {
                        assert(fetched@.take(i as int + 1).drop_last() =~= fetched@.take(i as int));
                        assert(fetched@.take(i as int + 1).last() == fetched@[i as int]);
                    }
                    i = i + 1;
                }
                proof {
                    assert(fetched@.take(n as int) =~= fetched@);
                }
            }
            *store = Option::Some(s);
        },
        Option::None => {
        },
    }
    let mut out = hits;
    let mut rest = fetched;
    out.append(&mut rest);
    out
}

} // verus!
