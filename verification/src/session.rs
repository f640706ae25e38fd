//! The session state: the identity of the archive currently open and the two
//! content caches scoped to it. A session is created with empty caches when an
//! archive is extracted, reused while the caller names the same identity, and
//! discarded wholesale when a different archive is opened.

use vstd::prelude::*;
use vstd::string::*;
use crate::cachemap::CacheMap;
use crate::strutil::str_eq;

verus! {

/// Copies a byte vector; byte clones are exact.
pub fn clone_bytes(v: &Vec<u8>) -> (r: Vec<u8>)
    ensures
        r@ == v@,
{
    let r = v.clone();
    proof {
        assert(r@ =~= v@);
    }
    r
}

/// One archive's live editing state.
pub struct Session {
    identity: String,
    texts: CacheMap<String>,
    bins: CacheMap<Vec<u8>>,
}

impl Session {
    /// The archive identity this session is scoped to.
    pub closed spec fn id(&self) -> Seq<char> {
        self.identity@
    }

    /// The cached decoded texts, by archive-relative path.
    pub closed spec fn text_map(&self) -> Map<Seq<char>, Seq<char>> {
        self.texts@
    }

    /// The cached raw bytes, by archive-relative path.
    pub closed spec fn bin_map(&self) -> Map<Seq<char>, Seq<u8>> {
        self.bins@
    }

    pub closed spec fn wf(&self) -> bool {
        self.texts.wf() && self.bins.wf()
    }

    /// A fresh session for the given identity, with cold caches.
    pub fn new(identity: &String) -> (r: Session)
        ensures
            r.wf(),
            r.id() == identity@,
            r.text_map() == Map::<Seq<char>, Seq<char>>::empty(),
            r.bin_map() == Map::<Seq<char>, Seq<u8>>::empty(),
    {
        Session { identity: identity.clone(), texts: CacheMap::new(), bins: CacheMap::new() }
    }

    /// Whether this session is valid for the given identity.
    pub fn matches(&self, identity: &String) -> (r: bool)
        ensures
            r == (self.id() == identity@),
    {
        str_eq(self.identity.as_str(), identity.as_str())
    }

    /// A cached text, if the path has one.
    pub fn get_text(&self, path: &String) -> (r: Option<&String>)
        requires
            self.wf(),
        ensures
            match r {
                Option::Some(c) => self.text_map().contains_key(path@) && c@ == self.text_map()[
                    path@
                ],
                Option::None => !self.text_map().contains_key(path@),
            },
    {
        self.texts.get(path.as_str())
    }

    /// Cached bytes, if the path has them.
    pub fn get_binary(&self, path: &String) -> (r: Option<&Vec<u8>>)
        requires
            self.wf(),
        ensures
            match r {
                Option::Some(c) => self.bin_map().contains_key(path@) && c@ == self.bin_map()[
                    path@
                ],
                Option::None => !self.bin_map().contains_key(path@),
            },
    {
        self.bins.get(path.as_str())
    }

    /// Records a decoded text for a path.
    pub fn cache_text(&mut self, path: &String, content: &String)
        requires
            old(self).wf(),
        ensures
            final(self).wf(),
            final(self).id() == old(self).id(),
            final(self).text_map() == old(self).text_map().insert(path@, content@),
            final(self).bin_map() == old(self).bin_map(),
    {
        self.texts.insert(path.clone(), content.clone());
    }

    /// Records raw bytes for a path.
    pub fn cache_binary(&mut self, path: &String, content: &Vec<u8>)
        requires
            old(self).wf(),
        ensures
            final(self).wf(),
            final(self).id() == old(self).id(),
            final(self).text_map() == old(self).text_map(),
            final(self).bin_map() == old(self).bin_map().insert(path@, content@),
    {
        let copy = clone_bytes(content);
        self.bins.insert(path.clone(), copy);
    }

    /// Forgets a path in both caches; a later read comes cold from disk.
    pub fn invalidate_exact(&mut self, path: &String)
        requires
            old(self).wf(),
        ensures
            final(self).wf(),
            final(self).id() == old(self).id(),
            final(self).text_map() == old(self).text_map().remove(path@),
            final(self).bin_map() == old(self).bin_map().remove(path@),
    {
        self.texts.remove(path.as_str());
        self.bins.remove(path.as_str());
    }

    /// Forgets a path and everything under the directory it names, in both
    /// caches; deletions and renames invalidate whole subtrees.
    pub fn invalidate_covered(&mut self, path: &String)
        requires
            old(self).wf(),
        ensures
            final(self).wf(),
            final(self).id() == old(self).id(),
            final(self).text_map() == old(self).text_map().remove_keys(
                Set::new(|k: Seq<char>| crate::pathing::path_covers(path@, k)),
            ),
            final(self).bin_map() == old(self).bin_map().remove_keys(
                Set::new(|k: Seq<char>| crate::pathing::path_covers(path@, k)),
            ),
    {
        self.texts.remove_covered(path.as_str());
        self.bins.remove_covered(path.as_str());
    }
}

} // verus!
