//! The cross-operation guarantees of the session layer, stated and proved
//! over the same specifications the operations' contracts use.

use vstd::prelude::*;
use crate::session::Session;
use crate::ops::{loaded_for, texts_recorded};

verus! {

/// Identity gating: while a session exists only for identity `a`, an
/// operation naming any other identity `b` finds no matching session — so
/// every gated operation refuses it as "not loaded", even though `a`'s
/// session and working directory still exist.
pub proof fn lemma_identity_gating(store: Option<Session>, a: Seq<char>, b: Seq<char>)
    requires
        loaded_for(store, a),
        b != a,
    ensures
        !loaded_for(store, b),
{
}

/// After recording a run of fetched entries, the cache holds each fetched
/// path at its fetched content (the last occurrence winning).
pub proof fn lemma_recorded_lookup(
    m0: Map<Seq<char>, Seq<char>>,
    fetched: Seq<(String, String)>,
    i: int,
)
    requires
        0 <= i < fetched.len(),
        forall|j: int| i < j < fetched.len() ==> (#[trigger] fetched[j].0@) != fetched[i].0@,
    ensures
        texts_recorded(m0, fetched).contains_key(fetched[i].0@),
        texts_recorded(m0, fetched)[fetched[i].0@] == fetched[i].1@,
    decreases fetched.len(),
{
    if i == fetched.len() - 1 {
    } else {
        let dl = fetched.drop_last();
        assert(dl[i] == fetched[i]);
        assert(forall|j: int| i < j < dl.len() ==> (#[trigger] dl[j].0@) != dl[i].0@);
        lemma_recorded_lookup(m0, dl, i);
        assert(fetched[fetched.len() - 1].0@ != fetched[i].0@);
    }
}

/// Cache coherence: a batch read that fetched a path from the archive
/// leaves that path in the text cache at the fetched content, so a single
/// read of the same path under the same identity is a cache hit returning
/// the same content — it touches neither the working directory nor the
/// archive.
pub proof fn lemma_cache_coherence(
    store0: Option<Session>,
    store1: Option<Session>,
    id: Seq<char>,
    fetched: Seq<(String, String)>,
    i: int,
)
    requires
        loaded_for(store0, id),
        loaded_for(store1, id),
        store1->Some_0.text_map() == texts_recorded(store0->Some_0.text_map(), fetched),
        0 <= i < fetched.len(),
        forall|j: int| i < j < fetched.len() ==> (#[trigger] fetched[j].0@) != fetched[i].0@,
    ensures
        store1->Some_0.text_map().contains_key(fetched[i].0@),
        store1->Some_0.text_map()[fetched[i].0@] == fetched[i].1@,
{
    lemma_recorded_lookup(store0->Some_0.text_map(), fetched, i);
}

/// Write visibility: after a committed text write of `c` to path `p`, the
/// text cache holds exactly `c` at `p`, so an immediate single read of `p`
/// under the same identity is a cache hit returning the newly written
/// content.
pub proof fn lemma_write_visibility(
    store0: Option<Session>,
    store1: Option<Session>,
    id: Seq<char>,
    p: Seq<char>,
    c: Seq<char>,
)
    requires
        loaded_for(store0, id),
        loaded_for(store1, id),
        store1->Some_0.text_map() == store0->Some_0.text_map().insert(p, c),
    ensures
        store1->Some_0.text_map().contains_key(p),
        store1->Some_0.text_map()[p] == c,
{
}

} // verus!
