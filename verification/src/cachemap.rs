//! The content cache: an association map from archive-relative paths to
//! cached values, with unique keys, viewed as a `Map<Seq<char>, V::V>`.

use vstd::prelude::*;
use vstd::pervasive::VecAdditionalExecFns;
use vstd::string::*;
use crate::strutil::str_eq;
use crate::pathing::{path_covers, covers};

verus! {

/// One cached item: the path it is keyed by and its content.
struct CacheEntry<V> {
    key: String,
    val: V,
}

/// The mathematical content of a run of entries: later entries win, though a
/// well-formed cache never repeats a key.
spec fn entries_map<V: View>(s: Seq<CacheEntry<V>>) -> Map<Seq<char>, <V as View>::V>
    decreases s.len(),
{
    if s.len() == 0 {
        Map::empty()
    } else {
        entries_map(s.drop_last()).insert(s.last().key@, s.last().val@)
    }
}

/// No two entries share a key.
spec fn unique_keys<V>(s: Seq<CacheEntry<V>>) -> bool {
    forall|i: int, j: int| 0 <= i < j < s.len() ==> s[i].key@ != s[j].key@
}

/// A key is in the map exactly when some entry carries it.
proof fn lemma_entries_map_dom<V: View>(s: Seq<CacheEntry<V>>)
    ensures
        forall|k: Seq<char>|
            entries_map(s).contains_key(k) <==> exists|i: int|
                0 <= i < s.len() && #[trigger] s[i].key@ == k,
    decreases s.len(),
{
    if s.len() > 0 {
        let dl = s.drop_last();
        lemma_entries_map_dom(dl);
        assert(entries_map(s) == entries_map(dl).insert(s.last().key@, s.last().val@));
        assert forall|k: Seq<char>| entries_map(s).contains_key(k) implies exists|i: int|
            0 <= i < s.len() && #[trigger] s[i].key@ == k by {
            if k == s.last().key@ {
                assert(s[s.len() - 1].key@ == k);
            } else {
                assert(entries_map(dl).contains_key(k));
                let i = choose|i: int| 0 <= i < dl.len() && #[trigger] dl[i].key@ == k;
                assert(dl[i] == s[i]);
                assert(s[i].key@ == k);
            }
        }
        assert forall|k: Seq<char>|
            (exists|i: int| 0 <= i < s.len() && #[trigger] s[i].key@ == k) implies entries_map(
            s,
        ).contains_key(k) by {
            let i = choose|i: int| 0 <= i < s.len() && #[trigger] s[i].key@ == k;
            if i < s.len() - 1 {
                assert(dl[i] == s[i]);
                assert(dl[i].key@ == k);
            }
        }
    }
}

/// Under unique keys, each entry's value is the map's value at its key.
proof fn lemma_entries_map_val<V: View>(s: Seq<CacheEntry<V>>, i: int)
    requires
        unique_keys(s),
        0 <= i < s.len(),
    ensures
        entries_map(s).contains_key(s[i].key@),
        entries_map(s)[s[i].key@] == s[i].val@,
    decreases s.len(),
{
    lemma_entries_map_dom(s);
    if i < s.len() - 1 {
        assert(s.drop_last()[i] == s[i]);
        lemma_entries_map_val(s.drop_last(), i);
    }
}

/// The cache itself; the embedding keeps one for text and one for bytes.
pub struct CacheMap<V> {
    entries: Vec<CacheEntry<V>>,
}

impl<V: View> View for CacheMap<V> {
    type V = Map<Seq<char>, <V as View>::V>;

    closed spec fn view(&self) -> Map<Seq<char>, <V as View>::V> {
        entries_map(self.entries@)
    }
}

impl<V: View> CacheMap<V> {
    /// Well-formed: no key occurs twice.
    pub closed spec fn wf(&self) -> bool {
        unique_keys(self.entries@)
    }

    /// An empty cache.
    pub fn new() -> (r: CacheMap<V>)
        ensures
            r.wf(),
            r@ == Map::<Seq<char>, <V as View>::V>::empty(),
    {
        CacheMap { entries: Vec::new() }
    }

    /// Looks a path up.
    pub fn get(&self, k: &str) -> (r: Option<&V>)
        requires
            self.wf(),
        ensures
            match r {
                Option::Some(v) => self@.contains_key(k@) && v@ == self@[k@],
                Option::None => !self@.contains_key(k@),
            },
    {
        let n = self.entries.len();
        let mut i: usize = 0;
        while i < n
            invariant
                self.wf(),
                n == self.entries@.len(),
                i <= n,
                forall|j: int| 0 <= j < i ==> self.entries@[j].key@ != k@,
            decreases n - i,
        {
            if str_eq(self.entries[i].key.as_str(), k) {
                proof {
                    lemma_entries_map_val(self.entries@, i as int);
                }
                return Option::Some(&self.entries[i].val);
            }
            i = i + 1;
        }
        proof {
            lemma_entries_map_dom(self.entries@);
        }
        Option::None
    }

    /// Binds a path to a value, replacing any previous binding.
    pub fn insert(&mut self, k: String, v: V)
        requires
            old(self).wf(),
        ensures
            final(self).wf(),
            final(self)@ == old(self)@.insert(k@, v@),
    {
        let n = self.entries.len();
        let mut i: usize = 0;
        while i < n
            invariant
                self.wf(),
                self.entries@ == old(self).entries@,
                n == self.entries@.len(),
                i <= n,
                forall|j: int| 0 <= j < i ==> self.entries@[j].key@ != k@,
            decreases n - i,
        {
            if str_eq(self.entries[i].key.as_str(), k.as_str()) {
                self.entries.set(i, CacheEntry { key: k, val: v });
                proof {
                    lemma_entries_map_update(old(self).entries@, i as int, self.entries@[i as int]);
                }
                return ;
            }
            i = i + 1;
        }
        self.entries.push(CacheEntry { key: k, val: v });
        proof {
            let s = old(self).entries@;
            let e = self.entries@.last();
            assert(self.entries@.drop_last() =~= s);
            lemma_entries_map_dom(s);
        }
    }

    /// Drops a path's binding, if any.
    pub fn remove(&mut self, k: &str)
        requires
            old(self).wf(),
        ensures
            final(self).wf(),
            final(self)@ == old(self)@.remove(k@),
    {
        let n = self.entries.len();
        let mut i: usize = 0;
        while i < n
            invariant
                self.wf(),
                self.entries@ == old(self).entries@,
                n == self.entries@.len(),
                i <= n,
                forall|j: int| 0 <= j < i ==> self.entries@[j].key@ != k@,
            decreases n - i,
        {
            if str_eq(self.entries[i].key.as_str(), k) {
                let ghost s = self.entries@;
                self.entries.remove(i);
                proof {
                    lemma_entries_map_remove(s, i as int);
                }
                return ;
            }
            i = i + 1;
        }
        proof {
            lemma_entries_map_dom(self.entries@);
            assert(self@ =~= self@.remove(k@));
        }
    }

    /// Drops every binding at or below the given path: the path itself and
    /// everything inside the directory it names.
    pub fn remove_covered(&mut self, p: &str)
        requires
            old(self).wf(),
        ensures
            final(self).wf(),
            final(self)@ == old(self)@.remove_keys(Set::new(|k: Seq<char>| path_covers(p@, k))),
    {
        let ghost orig = self.entries@;
        let ghost keep = |e: CacheEntry<V>| !path_covers(p@, e.key@);
        let n0 = self.entries.len();
        let mut kept: Vec<CacheEntry<V>> = Vec::new();
        let mut j: usize = 0;
        proof {
            reveal(Seq::filter);
            assert(orig.take(0) =~= Seq::<CacheEntry<V>>::empty());
            assert(kept@ =~= orig.take(0).filter(keep));
            assert(self.entries@ =~= orig.skip(0));
        }
        while j < n0
            invariant
                unique_keys(orig),
                n0 == orig.len(),
                j <= n0,
                forall|x: CacheEntry<V>| #[trigger] keep(x) == !path_covers(p@, x.key@),
                self.entries@ == orig.skip(j as int),
                kept@ == orig.take(j as int).filter(keep),
            decreases n0 - j,
        {
            let e = self.entries.remove(0);
            proof {
                assert(orig.skip(j as int)[0] == orig[j as int]);
                assert(e == orig[j as int]);
                assert(orig.skip(j as int).remove(0) =~= orig.skip(j as int + 1));
                assert(orig.take(j as int + 1) =~= orig.take(j as int).push(orig[j as int]));
                orig.take(j as int).lemma_filter_push(orig[j as int], keep);
            }
            let keep_it = !covers(p, e.key.as_str());
            proof {
                assert(forall|x: CacheEntry<V>| #[trigger] keep(x) == !path_covers(p@, x.key@));
                assert(keep_it == keep(orig[j as int]));
            }
            if keep_it {
                kept.push(e);
                proof {
                    assert(orig.take(j as int + 1).filter(keep) == orig.take(j as int).filter(
                        keep,
                    ).push(orig[j as int]));
                }
            } else {
                proof {
                    assert(orig.take(j as int + 1).filter(keep) == orig.take(j as int).filter(
                        keep,
                    ));
                }
            }
            j = j + 1;
        }
        proof {
            assert(orig.take(j as int) =~= orig);
        }
        self.entries = kept;
        proof {
            lemma_entries_map_filter(orig, p@);
        }
    }
}

/// Updating the entry that holds a key rewrites that key's value.
proof fn lemma_entries_map_update<V: View>(s: Seq<CacheEntry<V>>, i: int, e: CacheEntry<V>)
    requires
        unique_keys(s),
        0 <= i < s.len(),
        e.key@ == s[i].key@,
    ensures
        unique_keys(s.update(i, e)),
        entries_map(s.update(i, e)) == entries_map(s).insert(e.key@, e.val@),
    decreases s.len(),
{
    let t = s.update(i, e);
    assert forall|a: int, b: int| 0 <= a < b < t.len() implies t[a].key@ != t[b].key@ by {
        assert(s[a].key@ != s[b].key@);
    }
    if i == s.len() - 1 {
        assert(t.drop_last() =~= s.drop_last());
        assert(entries_map(t) =~= entries_map(s).insert(e.key@, e.val@));
    } else {
        assert(t.drop_last() =~= s.drop_last().update(i, e));
        assert(s.drop_last()[i] == s[i]);
        lemma_entries_map_update(s.drop_last(), i, e);
        assert(t.last() == s.last());
        assert(entries_map(t) =~= entries_map(s).insert(e.key@, e.val@));
    }
}

/// Removing the entry that holds a key removes that key from the map.
proof fn lemma_entries_map_remove<V: View>(s: Seq<CacheEntry<V>>, i: int)
    requires
        unique_keys(s),
        0 <= i < s.len(),
    ensures
        unique_keys(s.remove(i)),
        entries_map(s.remove(i)) == entries_map(s).remove(s[i].key@),
    decreases s.len(),
{
    let t = s.remove(i);
    assert forall|a: int, b: int| 0 <= a < b < t.len() implies t[a].key@ != t[b].key@ by {
        if b < i {
            assert(s[a].key@ != s[b].key@);
        } else if a < i {
            assert(s[a].key@ != s[b + 1].key@);
        } else {
            assert(s[a + 1].key@ != s[b + 1].key@);
        }
    }
    if i == s.len() - 1 {
        assert(t =~= s.drop_last());
        lemma_entries_map_dom(t);
        assert(entries_map(t) =~= entries_map(s).remove(s[i].key@));
    } else {
        assert(t.drop_last() =~= s.drop_last().remove(i));
        assert(s.drop_last()[i] == s[i]);
        lemma_entries_map_remove(s.drop_last(), i);
        assert(t.last() == s.last());
        assert(entries_map(t) =~= entries_map(s).remove(s[i].key@));
    }
}

/// Keeping only the entries whose key escapes a path removes from the map
/// exactly the keys that path covers.
proof fn lemma_entries_map_filter<V: View>(s: Seq<CacheEntry<V>>, p: Seq<char>)
    requires
        unique_keys(s),
    ensures
        unique_keys(s.filter(|e: CacheEntry<V>| !path_covers(p, e.key@))),
        entries_map(s.filter(|e: CacheEntry<V>| !path_covers(p, e.key@))) == entries_map(
            s,
        ).remove_keys(Set::new(|k: Seq<char>| path_covers(p, k))),
    decreases s.len(),
{
    reveal(Seq::filter);
    let keep = |e: CacheEntry<V>| !path_covers(p, e.key@);
    let ks = Set::new(|k: Seq<char>| path_covers(p, k));
    let f = s.filter(keep);
    broadcast use vstd::seq_lib::group_filter_ensures;

    if s.len() == 0 {
        assert(entries_map(f) =~= entries_map(s).remove_keys(ks));
    } else {
        let dl = s.drop_last();
        assert(forall|i: int, j: int| 0 <= i < j < dl.len() ==> dl[i].key@ != dl[j].key@);
        lemma_entries_map_filter(dl, p);
        let fdl = dl.filter(keep);
        if keep(s.last()) {
            assert(f == fdl.push(s.last()));
            assert(f.drop_last() =~= fdl);
            assert(entries_map(f) == entries_map(fdl).insert(s.last().key@, s.last().val@));
            assert(entries_map(f) =~= entries_map(s).remove_keys(ks));
        } else {
            assert(f == fdl);
            assert(entries_map(f) =~= entries_map(s).remove_keys(ks));
        }
        assert forall|i: int, j: int| 0 <= i < j < f.len() implies f[i].key@ != f[j].key@ by {
            lemma_filter_unique(s, keep, i, j);
        }
    }
}

/// Distinct positions of a filtered run come from distinct positions of the
/// original, so unique keys survive filtering.
proof fn lemma_filter_unique<V: View>(
    s: Seq<CacheEntry<V>>,
    keep: spec_fn(CacheEntry<V>) -> bool,
    i: int,
    j: int,
)
    requires
        unique_keys(s),
        0 <= i < j < s.filter(keep).len(),
    ensures
        s.filter(keep)[i].key@ != s.filter(keep)[j].key@,
    decreases s.len(),
{
    reveal(Seq::filter);
    broadcast use vstd::seq_lib::group_filter_ensures;

    if s.len() > 0 {
        let dl = s.drop_last();
        let f = s.filter(keep);
        let fdl = dl.filter(keep);
        assert(forall|a: int, b: int| 0 <= a < b < dl.len() ==> dl[a].key@ != dl[b].key@);
        if keep(s.last()) {
            assert(f == fdl.push(s.last()));
            if j < f.len() - 1 {
                assert(f[i] == fdl[i]);
                assert(f[j] == fdl[j]);
                lemma_filter_unique(dl, keep, i, j);
            } else {
                // f[j] is s.last(); f[i] sits in the filtered prefix, whose
                // members all occur in dl and so differ from the last key.
                assert(f[i] == fdl[i]);
                assert(f[j] == s.last());
                lemma_filter_elem_in(dl, keep, i);
                let a = choose|a: int| 0 <= a < dl.len() && dl[a] == fdl[i];
                assert(s[a] == dl[a]);
                assert(s[a].key@ != s[s.len() - 1].key@);
            }
        } else {
            assert(f == fdl);
            lemma_filter_unique(dl, keep, i, j);
        }
    }
}

/// Every element of a filtered run occurs in the original run.
proof fn lemma_filter_elem_in<A>(s: Seq<A>, pred: spec_fn(A) -> bool, i: int)
    requires
        0 <= i < s.filter(pred).len(),
    ensures
        exists|a: int| 0 <= a < s.len() && s[a] == s.filter(pred)[i],
    decreases s.len(),
{
    reveal(Seq::filter);
    if s.len() > 0 {
        let dl = s.drop_last();
        let f = s.filter(pred);
        let fdl = dl.filter(pred);
        if pred(s.last()) {
            assert(f == fdl.push(s.last()));
            if i < f.len() - 1 {
                assert(f[i] == fdl[i]);
                lemma_filter_elem_in(dl, pred, i);
                let a = choose|a: int| 0 <= a < dl.len() && dl[a] == fdl[i];
                assert(s[a] == dl[a]);
            } else {
                assert(s[s.len() - 1] == f[i]);
            }
        } else {
            assert(f == fdl);
            lemma_filter_elem_in(dl, pred, i);
            let a = choose|a: int| 0 <= a < dl.len() && dl[a] == fdl[i];
            assert(s[a] == dl[a]);
        }
    }
}

} // verus!
