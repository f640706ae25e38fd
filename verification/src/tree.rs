//! The displayed file tree. The flat list of files walked out of the working
//! directory is grouped by first path segment into top-level folders; files
//! two segments deep sit directly in their folder, and anything deeper is
//! gathered into one subfolder per second segment — nesting flattens below
//! that level. Root files keep their traversal order; folders, subfolders
//! and the files inside them are sorted by name.

use vstd::prelude::*;
use vstd::string::*;
use vstd::multiset::Multiset;
use crate::strutil::{is_suffix, has_suffix, lex_le, str_le, str_eq, lemma_lex_le_total,
    lemma_lex_le_trans};
use crate::pathing::{is_root_path, is_direct_path, is_deep_path, top_segment, second_segment,
    base_name, separators_normalized, excluded_from_tree, normalize_separators,
    is_excluded_from_tree, base_name_of};

verus! {

/// The display type of a tree entry, decided by its file extension.
#[derive(Clone, Copy, Debug, PartialEq, Eq, Structural)]
pub enum FileKind {
    Folder,
    Html,
    Css,
    Xml,
    Image,
    Font,
    Other,
}

/// The kind a file name maps to; the mapping is total, by suffix, and never
/// inspects content.
pub open spec fn classify(name: Seq<char>) -> FileKind {
    if is_suffix(".html"@, name) || is_suffix(".xhtml"@, name) {
        FileKind::Html
    } else if is_suffix(".css"@, name) {
        FileKind::Css
    } else if is_suffix(".xml"@, name) || is_suffix(".opf"@, name) || is_suffix(".ncx"@, name) {
        FileKind::Xml
    } else if is_suffix(".jpg"@, name) || is_suffix(".jpeg"@, name) || is_suffix(".png"@, name) {
        FileKind::Image
    } else if is_suffix(".ttf"@, name) || is_suffix(".otf"@, name) {
        FileKind::Font
    } else {
        FileKind::Other
    }
}

/// Maps a file name to its display kind.
pub fn classify_name(name: &str) -> (r: FileKind)
    ensures
        r == classify(name@),
{
    if has_suffix(name, ".html") || has_suffix(name, ".xhtml") {
        FileKind::Html
    } else if has_suffix(name, ".css") {
        FileKind::Css
    } else if has_suffix(name, ".xml") || has_suffix(name, ".opf") || has_suffix(name, ".ncx") {
        FileKind::Xml
    } else if has_suffix(name, ".jpg") || has_suffix(name, ".jpeg") || has_suffix(name, ".png") {
        FileKind::Image
    } else if has_suffix(name, ".ttf") || has_suffix(name, ".otf") {
        FileKind::Font
    } else {
        FileKind::Other
    }
}

/// One displayed file: its name (the last path segment), its archive
/// relative path, its kind, its size in bytes, and an optional display
/// title.
pub struct FileMeta {
    pub name: String,
    pub path: String,
    pub kind: FileKind,
    pub size: u64,
    pub title: Option<String>,
}

impl FileMeta {
    /// An exact copy.
    pub fn duplicate(&self) -> (r: FileMeta)
        ensures
            r == *self,
    {
        let title = match &self.title {
            Option::Some(t) => Option::Some(t.clone()),
            Option::None => Option::None,
        };
        FileMeta {
            name: self.name.clone(),
            path: self.path.clone(),
            kind: self.kind,
            size: self.size,
            title,
        }
    }
}

/// Turns one walked file into a displayable entry: separators are
/// normalized to `/`, entries under the container metadata directory and the
/// mimetype entry are dropped, the name is the last path segment, and the
/// kind follows the extension.
pub fn list_entry(raw_path: &String, size: u64, title: Option<String>) -> (r: Option<FileMeta>)
    ensures
        ({
            let p = separators_normalized(raw_path@);
            match r {
                Option::Some(e) => {
                    &&& !excluded_from_tree(p)
                    &&& e.path@ == p
                    &&& e.name@ == base_name(p)
                    &&& e.kind == classify(base_name(p))
                    &&& e.size == size
                    &&& e.title == title
                },
                Option::None => excluded_from_tree(p),
            }
        }),
{
    let path = normalize_separators(raw_path.as_str());
    if is_excluded_from_tree(path.as_str()) {
        return Option::None;
    }
    let name = base_name_of(path.as_str());
    let kind = classify_name(name.as_str());
    Option::Some(FileMeta { name, path, kind, size, title })
}

/// Files in name order.
pub open spec fn sorted_by_name(v: Seq<FileMeta>) -> bool {
    forall|i: int, j: int| 0 <= i < j < v.len() ==> lex_le(v[i].name@, v[j].name@)
}

/// Inserts a file into a name-sorted run, keeping it sorted.
fn insert_sorted(out: &mut Vec<FileMeta>, e: FileMeta)
    requires
        sorted_by_name(old(out)@),
    ensures
        sorted_by_name(final(out)@),
        final(out)@.to_multiset() == old(out)@.to_multiset().insert(e),
{
    let n = out.len();
    let mut pos: usize = 0;
    while pos < n && str_le(&out[pos].name, &e.name)
        invariant
            sorted_by_name(out@),
            out@ == old(out)@,
            n == out@.len(),
            pos <= n,
            forall|i: int| 0 <= i < pos ==> lex_le(out@[i].name@, e.name@),
        decreases n - pos,
    {
        pos = pos + 1;
    }
    proof {
        if pos < n {
            lemma_lex_le_total(out@[pos as int].name@, e.name@);
        }
        assert forall|j: int| pos <= j < n implies lex_le(e.name@, out@[j].name@) by {
            if j > pos {
                assert(lex_le(out@[pos as int].name@, out@[j].name@));
                lemma_lex_le_trans(e.name@, out@[pos as int].name@, out@[j].name@);
            }
        }
    }
    let ghost before = out@;
    out.insert(pos, e);
    proof {
        assert(out@ =~= before.take(pos as int).push(e) + before.skip(pos as int));
        assert forall|i: int, j: int| 0 <= i < j < out@.len() implies lex_le(
            out@[i].name@,
            out@[j].name@,
        ) by {
            if i < pos && j < pos {
                assert(out@[i] == before[i] && out@[j] == before[j]);
            } else if i < pos && j == pos {
                assert(out@[i] == before[i] && out@[j] == e);
            } else if i < pos && j > pos {
                assert(out@[i] == before[i] && out@[j] == before[j - 1]);
            } else if i == pos {
                assert(out@[i] == e);
                if j > pos {
                    assert(out@[j] == before[j - 1]);
                }
            } else {
                assert(out@[i] == before[i - 1] && out@[j] == before[j - 1]);
            }
        }
        broadcast use vstd::seq_lib::group_to_multiset_ensures;

        vstd::seq_lib::lemma_multiset_commutative(before.take(pos as int).push(e), before.skip(
            pos as int,
        ));
        vstd::seq_lib::lemma_multiset_commutative(before.take(pos as int), before.skip(pos as int));
        assert(before.take(pos as int) + before.skip(pos as int) =~= before);
        assert(out@.to_multiset() =~= before.to_multiset().insert(e));
    }
}

/// Sorts files by name; the result is a permutation of the input.
pub fn sort_files(files: Vec<FileMeta>) -> (r: Vec<FileMeta>)
    ensures
        sorted_by_name(r@),
        r@.to_multiset() == files@.to_multiset(),
{
    let ghost orig = files@;
    let mut rest = files;
    let mut out: Vec<FileMeta> = Vec::new();
    proof {
        broadcast use vstd::seq_lib::group_to_multiset_ensures;

        assert(out@.to_multiset() =~= Multiset::<FileMeta>::empty());
        assert(out@.to_multiset().add(rest@.to_multiset()) =~= orig.to_multiset());
    }
    while rest.len() > 0
        invariant
            sorted_by_name(out@),
            out@.to_multiset().add(rest@.to_multiset()) == orig.to_multiset(),
        decreases rest@.len(),
    {
        let ghost rest0 = rest@;
        let e = rest.remove(0);
        insert_sorted(&mut out, e);
        proof {
            broadcast use vstd::seq_lib::group_to_multiset_ensures;

            assert(rest@ == rest0.remove(0));
            assert(rest0.to_multiset().remove(e) == rest@.to_multiset());
            assert(out@.to_multiset().add(rest@.to_multiset()) =~= orig.to_multiset());
        }
    }
    proof {
        broadcast use vstd::seq_lib::group_to_multiset_ensures;

        assert(rest@.to_multiset() =~= Multiset::<FileMeta>::empty());
        assert(out@.to_multiset() =~= orig.to_multiset());
    }
    out
}

/// Entries whose path is a bare name, shown at the root.
pub open spec fn at_root_pred() -> spec_fn(FileMeta) -> bool {
    |e: FileMeta| is_root_path(e.path@)
}

/// Entries that live inside some folder.
pub open spec fn off_root_pred() -> spec_fn(FileMeta) -> bool {
    |e: FileMeta| !is_root_path(e.path@)
}

/// Entries whose first segment is the given folder name.
pub open spec fn top_is_pred(d: Seq<char>) -> spec_fn(FileMeta) -> bool {
    |e: FileMeta| top_segment(e.path@) == d
}

/// Entries whose first segment is not the given folder name.
pub open spec fn top_off_pred(d: Seq<char>) -> spec_fn(FileMeta) -> bool {
    |e: FileMeta| top_segment(e.path@) != d
}

/// Entries exactly two segments deep: direct files of their folder.
pub open spec fn direct_pred() -> spec_fn(FileMeta) -> bool {
    |e: FileMeta| is_direct_path(e.path@)
}

/// Entries three or more segments deep: gathered into a subfolder.
pub open spec fn deep_pred() -> spec_fn(FileMeta) -> bool {
    |e: FileMeta| is_deep_path(e.path@)
}

/// Deep entries whose second segment is the given subfolder name.
pub open spec fn second_is_pred(s: Seq<char>) -> spec_fn(FileMeta) -> bool {
    |e: FileMeta| second_segment(e.path@) == s
}

/// Deep entries whose second segment is not the given subfolder name.
pub open spec fn second_off_pred(s: Seq<char>) -> spec_fn(FileMeta) -> bool {
    |e: FileMeta| second_segment(e.path@) != s
}

/// Splits the entries into root-level files (in order) and the rest (in
/// order).
fn split_root(files: Vec<FileMeta>) -> (r: (Vec<FileMeta>, Vec<FileMeta>))
    ensures
        r.0@ == files@.filter(at_root_pred()),
        r.1@ == files@.filter(off_root_pred()),
{
    let ghost orig = files@;
    let mut rest = files;
    let mut yes: Vec<FileMeta> = Vec::new();
    let mut no: Vec<FileMeta> = Vec::new();
    let n0 = rest.len();
    let mut j: usize = 0;
    proof {
        reveal(Seq::filter);
        assert(orig.take(0) =~= Seq::<FileMeta>::empty());
        assert(yes@ =~= orig.take(0).filter(at_root_pred()));
        assert(no@ =~= orig.take(0).filter(off_root_pred()));
        assert(rest@ =~= orig.skip(0));
    }
    while j < n0
        invariant
            n0 == orig.len(),
            j <= n0,
            forall|x: FileMeta| #[trigger] at_root_pred()(x) == is_root_path(x.path@),
            forall|x: FileMeta| #[trigger] off_root_pred()(x) == !is_root_path(x.path@),
            rest@ == orig.skip(j as int),
            yes@ == orig.take(j as int).filter(at_root_pred()),
            no@ == orig.take(j as int).filter(off_root_pred()),
        decreases n0 - j,
    {
        let e = rest.remove(0);
        proof {
            assert(orig.skip(j as int)[0] == orig[j as int]);
            assert(e == orig[j as int]);
            assert(orig.skip(j as int).remove(0) =~= orig.skip(j as int + 1));
            assert(orig.take(j as int + 1) =~= orig.take(j as int).push(orig[j as int]));
            orig.take(j as int).lemma_filter_push(orig[j as int], at_root_pred());
            orig.take(j as int).lemma_filter_push(orig[j as int], off_root_pred());
        }
        let shape = crate::pathing::path_shape(e.path.as_str());
        if shape == crate::pathing::PathShape::Root {
            yes.push(e);
        } else {
            no.push(e);
        }
        j = j + 1;
    }
    proof {
        assert(orig.take(j as int) =~= orig);
    }
    (yes, no)
}

/// Splits the entries into those inside the named top-level folder and the
/// rest, keeping order.
fn split_top(files: Vec<FileMeta>, d: &String) -> (r: (Vec<FileMeta>, Vec<FileMeta>))
    ensures
        r.0@ == files@.filter(top_is_pred(d@)),
        r.1@ == files@.filter(top_off_pred(d@)),
{
    let ghost orig = files@;
    let mut rest = files;
    let mut yes: Vec<FileMeta> = Vec::new();
    let mut no: Vec<FileMeta> = Vec::new();
    let n0 = rest.len();
    let mut j: usize = 0;
    proof {
        reveal(Seq::filter);
        assert(orig.take(0) =~= Seq::<FileMeta>::empty());
        assert(yes@ =~= orig.take(0).filter(top_is_pred(d@)));
        assert(no@ =~= orig.take(0).filter(top_off_pred(d@)));
        assert(rest@ =~= orig.skip(0));
    }
    while j < n0
        invariant
            n0 == orig.len(),
            j <= n0,
            forall|x: FileMeta| #[trigger] top_is_pred(d@)(x) == (top_segment(x.path@) == d@),
            forall|x: FileMeta| #[trigger] top_off_pred(d@)(x) == (top_segment(x.path@) != d@),
            rest@ == orig.skip(j as int),
            yes@ == orig.take(j as int).filter(top_is_pred(d@)),
            no@ == orig.take(j as int).filter(top_off_pred(d@)),
        decreases n0 - j,
    {
        let e = rest.remove(0);
        proof {
            assert(orig.skip(j as int)[0] == orig[j as int]);
            assert(e == orig[j as int]);
            assert(orig.skip(j as int).remove(0) =~= orig.skip(j as int + 1));
            assert(orig.take(j as int + 1) =~= orig.take(j as int).push(orig[j as int]));
            orig.take(j as int).lemma_filter_push(orig[j as int], top_is_pred(d@));
            orig.take(j as int).lemma_filter_push(orig[j as int], top_off_pred(d@));
        }
        let top = crate::pathing::top_segment_of(e.path.as_str());
        if str_eq(top.as_str(), d.as_str()) {
            yes.push(e);
        } else {
            no.push(e);
        }
        j = j + 1;
    }
    proof {
        assert(orig.take(j as int) =~= orig);
    }
    (yes, no)
}

/// Splits a folder's entries into its direct files (two segments) and its
/// deeper entries, keeping order.
fn split_direct(files: Vec<FileMeta>) -> (r: (Vec<FileMeta>, Vec<FileMeta>))
    requires
        forall|i: int| 0 <= i < files@.len() ==> !is_root_path(#[trigger] files@[i].path@),
    ensures
        r.0@ == files@.filter(direct_pred()),
        r.1@ == files@.filter(deep_pred()),
{
    let ghost orig = files@;
    let mut rest = files;
    let mut yes: Vec<FileMeta> = Vec::new();
    let mut no: Vec<FileMeta> = Vec::new();
    let n0 = rest.len();
    let mut j: usize = 0;
    proof {
        reveal(Seq::filter);
        assert(orig.take(0) =~= Seq::<FileMeta>::empty());
        assert(yes@ =~= orig.take(0).filter(direct_pred()));
        assert(no@ =~= orig.take(0).filter(deep_pred()));
        assert(rest@ =~= orig.skip(0));
    }
    while j < n0
        invariant
            n0 == orig.len(),
            j <= n0,
            forall|i: int| 0 <= i < orig.len() ==> !is_root_path(#[trigger] orig[i].path@),
            forall|x: FileMeta| #[trigger] direct_pred()(x) == is_direct_path(x.path@),
            forall|x: FileMeta| #[trigger] deep_pred()(x) == is_deep_path(x.path@),
            rest@ == orig.skip(j as int),
            yes@ == orig.take(j as int).filter(direct_pred()),
            no@ == orig.take(j as int).filter(deep_pred()),
        decreases n0 - j,
    {
        let e = rest.remove(0);
        proof {
            assert(orig.skip(j as int)[0] == orig[j as int]);
            assert(e == orig[j as int]);
            assert(orig.skip(j as int).remove(0) =~= orig.skip(j as int + 1));
            assert(orig.take(j as int + 1) =~= orig.take(j as int).push(orig[j as int]));
            orig.take(j as int).lemma_filter_push(orig[j as int], direct_pred());
            orig.take(j as int).lemma_filter_push(orig[j as int], deep_pred());
        }
        let shape = crate::pathing::path_shape(e.path.as_str());
        if shape == crate::pathing::PathShape::Direct {
            yes.push(e);
        } else {
            no.push(e);
        }
        j = j + 1;
    }
    proof {
        assert(orig.take(j as int) =~= orig);
    }
    (yes, no)
}

/// Splits deep entries into those under the named subfolder and the rest,
/// keeping order.
fn split_second(files: Vec<FileMeta>, s: &String) -> (r: (Vec<FileMeta>, Vec<FileMeta>))
    requires
        forall|i: int| 0 <= i < files@.len() ==> is_deep_path(#[trigger] files@[i].path@),
    ensures
        r.0@ == files@.filter(second_is_pred(s@)),
        r.1@ == files@.filter(second_off_pred(s@)),
{
    let ghost orig = files@;
    let mut rest = files;
    let mut yes: Vec<FileMeta> = Vec::new();
    let mut no: Vec<FileMeta> = Vec::new();
    let n0 = rest.len();
    let mut j: usize = 0;
    proof {
        reveal(Seq::filter);
        assert(orig.take(0) =~= Seq::<FileMeta>::empty());
        assert(yes@ =~= orig.take(0).filter(second_is_pred(s@)));
        assert(no@ =~= orig.take(0).filter(second_off_pred(s@)));
        assert(rest@ =~= orig.skip(0));
    }
    while j < n0
        invariant
            n0 == orig.len(),
            j <= n0,
            forall|i: int| 0 <= i < orig.len() ==> is_deep_path(#[trigger] orig[i].path@),
            forall|x: FileMeta| #[trigger] second_is_pred(s@)(x) == (second_segment(x.path@) == s@),
            forall|x: FileMeta| #[trigger] second_off_pred(s@)(x) == (second_segment(x.path@)
                != s@),
            rest@ == orig.skip(j as int),
            yes@ == orig.take(j as int).filter(second_is_pred(s@)),
            no@ == orig.take(j as int).filter(second_off_pred(s@)),
        decreases n0 - j,
    {
        let e = rest.remove(0);
        proof {
            assert(orig.skip(j as int)[0] == orig[j as int]);
            assert(e == orig[j as int]);
            assert(orig.skip(j as int).remove(0) =~= orig.skip(j as int + 1));
            assert(orig.take(j as int + 1) =~= orig.take(j as int).push(orig[j as int]));
            orig.take(j as int).lemma_filter_push(orig[j as int], second_is_pred(s@));
            orig.take(j as int).lemma_filter_push(orig[j as int], second_off_pred(s@));
        }
        let second = crate::pathing::second_segment_of(e.path.as_str());
        if str_eq(second.as_str(), s.as_str()) {
            yes.push(e);
        } else {
            no.push(e);
        }
        j = j + 1;
    }
    proof {
        assert(orig.take(j as int) =~= orig);
    }
    (yes, no)
}

/// A run of names holds the given name.
pub open spec fn seq_has_name(names: Seq<String>, d: Seq<char>) -> bool {
    exists|i: int| 0 <= i < names.len() && names[i]@ == d
}

/// Names in strictly increasing order: sorted, and pairwise distinct.
pub open spec fn names_strictly_sorted(names: Seq<String>) -> bool {
    forall|i: int, j: int|
        0 <= i < j < names.len() ==> lex_le(#[trigger] names[i]@, #[trigger] names[j]@) && names[
            i
        ]@ != names[j]@
}

/// Adds a name to a strictly sorted run, unless it is already present.
fn insert_name_unique(names: &mut Vec<String>, n: String)
    requires
        names_strictly_sorted(old(names)@),
    ensures
        names_strictly_sorted(final(names)@),
        forall|d: Seq<char>|
            seq_has_name(final(names)@, d) <==> (seq_has_name(old(names)@, d) || d == n@),
{
    let len = names.len();
    let mut k: usize = 0;
    while k < len
        invariant
            names_strictly_sorted(names@),
            names@ == old(names)@,
            len == names@.len(),
            k <= len,
            forall|i: int| 0 <= i < k ==> names@[i]@ != n@,
        decreases len - k,
    {
        if str_eq(names[k].as_str(), n.as_str()) {
            proof {
                assert(names@[k as int]@ == n@);
                assert(seq_has_name(names@, n@));
            }
            return ;
        }
        k = k + 1;
    }
    // The name is new; find its position in the order.
    let mut pos: usize = 0;
    while pos < len && str_le(&names[pos], &n)
        invariant
            names_strictly_sorted(names@),
            names@ == old(names)@,
            len == names@.len(),
            pos <= len,
            forall|i: int| 0 <= i < len ==> names@[i]@ != n@,
            forall|i: int| 0 <= i < pos ==> lex_le(names@[i]@, n@),
        decreases len - pos,
    {
        pos = pos + 1;
    }
    proof {
        if pos < len {
            lemma_lex_le_total(names@[pos as int]@, n@);
        }
        assert forall|j: int| pos <= j < len implies lex_le(n@, names@[j]@) by {
            if j > pos {
                assert(lex_le(names@[pos as int]@, names@[j]@));
                lemma_lex_le_trans(n@, names@[pos as int]@, names@[j]@);
            }
        }
    }
    let ghost before = names@;
    proof {
        assert(forall|jj: int| pos <= jj < len ==> lex_le(n@, #[trigger] before[jj]@));
        assert(forall|ii: int| 0 <= ii < pos ==> lex_le(#[trigger] before[ii]@, n@));
        assert(forall|ii: int| 0 <= ii < len ==> #[trigger] before[ii]@ != n@);
    }
    names.insert(pos, n);
    proof {
        assert(names@ =~= before.take(pos as int).push(n) + before.skip(pos as int));
        assert forall|i: int, j: int| 0 <= i < j < names@.len() implies lex_le(
            names@[i]@,
            names@[j]@,
        ) && names@[i]@ != names@[j]@ by {
            if i < pos && j < pos {
                assert(names@[i] == before[i] && names@[j] == before[j]);
            } else if i < pos && j == pos {
                assert(names@[i] == before[i] && names@[j] == n);
                assert(lex_le(before[i]@, n@));
                assert(before[i]@ != n@);
            } else if i < pos && j > pos {
                assert(names@[i] == before[i] && names@[j] == before[j - 1]);
            } else if i == pos {
                assert(names@[i] == n);
                if j > pos {
                    assert(names@[j] == before[j - 1]);
                    assert(lex_le(n@, before[j - 1]@));
                    assert(before[j - 1]@ != n@);
                }
            } else {
                assert(names@[i] == before[i - 1] && names@[j] == before[j - 1]);
            }
        }
        assert(before == old(names)@);
        assert forall|d: Seq<char>|
            seq_has_name(names@, d) <==> (seq_has_name(old(names)@, d) || d == n@) by {
            if seq_has_name(names@, d) {
                let i = choose|i: int| 0 <= i < names@.len() && names@[i]@ == d;
                if i < pos {
                    assert(before[i]@ == d);
                } else if i == pos {
                } else {
                    assert(before[i - 1]@ == d);
                }
            }
            if seq_has_name(before, d) {
                let i = choose|i: int| 0 <= i < before.len() && before[i]@ == d;
                if i < pos {
                    assert(names@[i]@ == d);
                } else {
                    assert(names@[i + 1]@ == d);
                }
            }
            if d == n@ {
                assert(names@[pos as int]@ == d);
            }
        }
    }
}

/// Collects the distinct first segments of a run of non-root entries, in
/// strictly increasing name order.
fn collect_top_names(rest: &Vec<FileMeta>) -> (r: Vec<String>)
    ensures
        names_strictly_sorted(r@),
        forall|d: Seq<char>|
            seq_has_name(r@, d) <==> (exists|j: int|
                0 <= j < rest@.len() && top_segment(#[trigger] rest@[j].path@) == d),
{
    let mut names: Vec<String> = Vec::new();
    let n = rest.len();
    let mut j: usize = 0;
    while j < n
        invariant
            n == rest@.len(),
            j <= n,
            names_strictly_sorted(names@),
            forall|d: Seq<char>|
                seq_has_name(names@, d) <==> (exists|i: int|
                    0 <= i < j && top_segment(#[trigger] rest@[i].path@) == d),
        decreases n - j,
    {
        let t = crate::pathing::top_segment_of(rest[j].path.as_str());
        insert_name_unique(&mut names, t);
        proof {
            assert forall|d: Seq<char>|
                seq_has_name(names@, d) <==> (exists|i: int|
                    0 <= i < j + 1 && top_segment(#[trigger] rest@[i].path@) == d) by {
                if seq_has_name(names@, d) && d != top_segment(rest@[j as int].path@) {
                    let i = choose|i: int|
                        0 <= i < j && top_segment(#[trigger] rest@[i].path@) == d;
                    assert(top_segment(rest@[i].path@) == d);
                }
                if d == top_segment(rest@[j as int].path@) {
                    assert(top_segment(rest@[j as int].path@) == d);
                }
            }
        }
        j = j + 1;
    }
    names
}

/// Collects the distinct second segments of a run of deep entries, in
/// strictly increasing name order.
fn collect_second_names(deep: &Vec<FileMeta>) -> (r: Vec<String>)
    requires
        forall|i: int| 0 <= i < deep@.len() ==> is_deep_path(#[trigger] deep@[i].path@),
    ensures
        names_strictly_sorted(r@),
        forall|d: Seq<char>|
            seq_has_name(r@, d) <==> (exists|j: int|
                0 <= j < deep@.len() && second_segment(#[trigger] deep@[j].path@) == d),
{
    let mut names: Vec<String> = Vec::new();
    let n = deep.len();
    let mut j: usize = 0;
    while j < n
        invariant
            n == deep@.len(),
            j <= n,
            forall|i: int| 0 <= i < deep@.len() ==> is_deep_path(#[trigger] deep@[i].path@),
            names_strictly_sorted(names@),
            forall|d: Seq<char>|
                seq_has_name(names@, d) <==> (exists|i: int|
                    0 <= i < j && second_segment(#[trigger] deep@[i].path@) == d),
        decreases n - j,
    {
        let t = crate::pathing::second_segment_of(deep[j].path.as_str());
        insert_name_unique(&mut names, t);
        proof {
            assert forall|d: Seq<char>|
                seq_has_name(names@, d) <==> (exists|i: int|
                    0 <= i < j + 1 && second_segment(#[trigger] deep@[i].path@) == d) by {
                if seq_has_name(names@, d) && d != second_segment(deep@[j as int].path@) {
                    let i = choose|i: int|
                        0 <= i < j && second_segment(#[trigger] deep@[i].path@) == d;
                    assert(second_segment(deep@[i].path@) == d);
                }
                if d == second_segment(deep@[j as int].path@) {
                    assert(second_segment(deep@[j as int].path@) == d);
                }
            }
        }
        j = j + 1;
    }
    names
}

/// One subfolder of a top-level folder: deep entries grouped by their second
/// segment; nesting flattens here, so a subfolder holds every entry below
/// it, however deep.
pub struct SubFolder {
    pub name: String,
    pub path: String,
    pub files: Vec<FileMeta>,
}

/// One top-level folder: its direct files and its subfolders.
pub struct Folder {
    pub name: String,
    pub path: String,
    pub files: Vec<FileMeta>,
    pub subfolders: Vec<SubFolder>,
}

/// The displayed tree: root-level files in traversal order, then folders in
/// name order.
pub struct Tree {
    pub root_files: Vec<FileMeta>,
    pub folders: Vec<Folder>,
}

/// Entries that live inside the named top-level folder, at any depth.
pub open spec fn in_top_pred(d: Seq<char>) -> spec_fn(FileMeta) -> bool {
    |e: FileMeta| !is_root_path(e.path@) && top_segment(e.path@) == d
}

/// Direct files of the named folder: two segments, the first being its name.
pub open spec fn in_direct_pred(d: Seq<char>) -> spec_fn(FileMeta) -> bool {
    |e: FileMeta| is_direct_path(e.path@) && top_segment(e.path@) == d
}

/// Deep entries of the named folder: three or more segments.
pub open spec fn in_deep_pred(d: Seq<char>) -> spec_fn(FileMeta) -> bool {
    |e: FileMeta| is_deep_path(e.path@) && top_segment(e.path@) == d
}

/// Entries of the named subfolder: deep entries of `d` whose second segment
/// is `s`.
pub open spec fn in_sub_pred(d: Seq<char>, s: Seq<char>) -> spec_fn(FileMeta) -> bool {
    |e: FileMeta| is_deep_path(e.path@) && top_segment(e.path@) == d && second_segment(e.path@)
        == s
}

/// Entries whose first segment is none of the given names.
pub open spec fn top_notin_pred(names: Seq<Seq<char>>) -> spec_fn(FileMeta) -> bool {
    |e: FileMeta| !names.contains(top_segment(e.path@))
}

/// Deep entries whose second segment is none of the given names.
pub open spec fn second_notin_pred(names: Seq<Seq<char>>) -> spec_fn(FileMeta) -> bool {
    |e: FileMeta| !names.contains(second_segment(e.path@))
}

/// The run of subfolders holds one by this name.
pub open spec fn has_sub(subs: Seq<SubFolder>, s: Seq<char>) -> bool {
    exists|i: int| 0 <= i < subs.len() && subs[i].name@ == s
}

/// The run of folders holds one by this name.
pub open spec fn has_folder(fs: Seq<Folder>, d: Seq<char>) -> bool {
    exists|i: int| 0 <= i < fs.len() && fs[i].name@ == d
}

/// Subfolders in strictly increasing name order.
pub open spec fn subs_sorted(subs: Seq<SubFolder>) -> bool {
    forall|i: int, j: int|
        0 <= i < j < subs.len() ==> lex_le(subs[i].name@, subs[j].name@) && subs[i].name@ != subs[
            j
        ].name@
}

/// Folders in strictly increasing name order.
pub open spec fn folders_sorted(fs: Seq<Folder>) -> bool {
    forall|i: int, j: int|
        0 <= i < j < fs.len() ==> lex_le(fs[i].name@, fs[j].name@) && fs[i].name@ != fs[j].name@
}

/// A subfolder of folder `d` is correct for the input when its path joins
/// the two names and it holds exactly the input's entries under that name,
/// sorted.
pub open spec fn subfolder_wf(sf: SubFolder, input: Seq<FileMeta>, d: Seq<char>) -> bool {
    &&& sf.path@ == d + seq!['/'] + sf.name@
    &&& sorted_by_name(sf.files@)
    &&& sf.files@.to_multiset() == input.filter(in_sub_pred(d, sf.name@)).to_multiset()
}

/// A folder is correct for the input when it holds exactly the input's
/// direct files under its name, sorted, and one subfolder per distinct
/// second segment, in order.
pub open spec fn folder_wf(f: Folder, input: Seq<FileMeta>) -> bool {
    &&& f.path@ == f.name@
    &&& sorted_by_name(f.files@)
    &&& f.files@.to_multiset() == input.filter(in_direct_pred(f.name@)).to_multiset()
    &&& subs_sorted(f.subfolders@)
    &&& forall|i: int|
        0 <= i < f.subfolders@.len() ==> subfolder_wf(#[trigger] f.subfolders@[i], input, f.name@)
    &&& forall|s: Seq<char>|
        has_sub(f.subfolders@, s) <==> (exists|j: int|
            0 <= j < input.len() && in_sub_pred(f.name@, s)(#[trigger] input[j]))
}

/// The tree is correct for the input: root files keep traversal order, and
/// there is exactly one folder, in name order, per distinct first segment.
pub open spec fn tree_wf(t: Tree, input: Seq<FileMeta>) -> bool {
    &&& t.root_files@ == input.filter(at_root_pred())
    &&& folders_sorted(t.folders@)
    &&& forall|i: int| 0 <= i < t.folders@.len() ==> folder_wf(#[trigger] t.folders@[i], input)
    &&& forall|d: Seq<char>|
        has_folder(t.folders@, d) <==> (exists|j: int|
            0 <= j < input.len() && in_top_pred(d)(#[trigger] input[j]))
}

/// Filtering twice is filtering by the conjunction.
proof fn lemma_filter_compose<A>(
    s: Seq<A>,
    p: spec_fn(A) -> bool,
    q: spec_fn(A) -> bool,
    r: spec_fn(A) -> bool,
)
    requires
        forall|x: A| #[trigger] r(x) == (p(x) && q(x)),
    ensures
        s.filter(p).filter(q) == s.filter(r),
    decreases s.len(),
{
    reveal(Seq::filter);
    if s.len() == 0 {
        assert(s.filter(p).filter(q) =~= s.filter(r));
    } else {
        let dl = s.drop_last();
        lemma_filter_compose(dl, p, q, r);
        if p(s.last()) {
            assert(s.filter(p) == dl.filter(p).push(s.last()));
            dl.filter(p).lemma_filter_push(s.last(), q);
        } else {
            assert(s.filter(p) == dl.filter(p));
        }
        assert(s.filter(p).filter(q) == s.filter(r));
    }
}

/// Every element of a filtered run occurs in the original run.
proof fn lemma_filter_member<A>(s: Seq<A>, pred: spec_fn(A) -> bool, i: int)
    requires
        0 <= i < s.filter(pred).len(),
    ensures
        exists|a: int| 0 <= a < s.len() && s[a] == #[trigger] s.filter(pred)[i],
    decreases s.len(),
{
    reveal(Seq::filter);
    if s.len() > 0 {
        let dl = s.drop_last();
        let f = s.filter(pred);
        let fdl = dl.filter(pred);
        if pred(s.last()) {
            assert(f == fdl.push(s.last()));
            if i < f.len() - 1 {
                assert(f[i] == fdl[i]);
                lemma_filter_member(dl, pred, i);
                let a = choose|a: int| 0 <= a < dl.len() && dl[a] == fdl[i];
                assert(s[a] == dl[a]);
            } else {
                assert(s[s.len() - 1] == f[i]);
            }
        } else {
            assert(f == fdl);
            lemma_filter_member(dl, pred, i);
            let a = choose|a: int| 0 <= a < dl.len() && dl[a] == fdl[i];
            assert(s[a] == dl[a]);
        }
    }
}

/// Filtering by a predicate every element satisfies changes nothing.
proof fn lemma_filter_all<A>(s: Seq<A>, pred: spec_fn(A) -> bool)
    requires
        forall|i: int| 0 <= i < s.len() ==> pred(#[trigger] s[i]),
    ensures
        s.filter(pred) == s,
    decreases s.len(),
{
    reveal(Seq::filter);
    if s.len() > 0 {
        let dl = s.drop_last();
        assert(forall|i: int| 0 <= i < dl.len() ==> dl[i] == s[i]);
        lemma_filter_all(dl, pred);
        assert(s.filter(pred) =~= s);
    } else {
        assert(s.filter(pred) =~= s);
    }
}

/// A pushed run holds exactly the old elements and the new one.
proof fn lemma_contains_push<A>(s: Seq<A>, x: A, y: A)
    ensures
        s.push(x).contains(y) <==> (s.contains(y) || y == x),
{
    if s.push(x).contains(y) {
        let i = choose|i: int| 0 <= i < s.push(x).len() && s.push(x)[i] == y;
        if i < s.len() {
            assert(s[i] == y);
        }
    }
    if s.contains(y) {
        let i = choose|i: int| 0 <= i < s.len() && s[i] == y;
        assert(s.push(x)[i] == y);
    }
    assert(s.push(x)[s.len() as int] == x);
}

/// Builds one top-level folder from the input's entries under its name:
/// direct files sorted by name, then one subfolder per distinct second
/// segment, in name order, each holding its entries sorted by name.
fn build_folder(mine: Vec<FileMeta>, d: &String, Ghost(input): Ghost<Seq<FileMeta>>) -> (f: Folder)
    requires
        mine@ == input.filter(in_top_pred(d@)),
    ensures
        f.name@ == d@,
        folder_wf(f, input),
{
    proof {
        broadcast use vstd::seq_lib::group_filter_ensures;

        assert forall|i: int| 0 <= i < mine@.len() implies !is_root_path(
            #[trigger] mine@[i].path@,
        ) by {
            input.lemma_filter_pred(in_top_pred(d@), i);
            assert(in_top_pred(d@)(mine@[i]));
        }
    }
    let (direct, deep) = split_direct(mine);
    proof {
        assert(forall|x: FileMeta| #[trigger] in_direct_pred(d@)(x) == (in_top_pred(d@)(x)
            && direct_pred()(x)));
        lemma_filter_compose(input, in_top_pred(d@), direct_pred(), in_direct_pred(d@));
        assert(forall|x: FileMeta| #[trigger] in_deep_pred(d@)(x) == (in_top_pred(d@)(x)
            && deep_pred()(x)));
        lemma_filter_compose(input, in_top_pred(d@), deep_pred(), in_deep_pred(d@));
    }
    let ghost direct0 = direct@;
    let ghost deep0 = deep@;
    proof {
        assert(direct0 == input.filter(in_direct_pred(d@)));
        assert(deep0 == input.filter(in_deep_pred(d@)));
        broadcast use vstd::seq_lib::group_filter_ensures;

        assert forall|i: int| 0 <= i < deep0.len() implies is_deep_path(#[trigger] deep0[i].path@)
            && top_segment(deep0[i].path@) == d@ by {
            input.lemma_filter_pred(in_deep_pred(d@), i);
            assert(in_deep_pred(d@)(deep0[i]));
        }
    }
    let files_sorted = sort_files(direct);
    let subnames = collect_second_names(&deep);
    let ghost sv = subnames@.map_values(|x: String| x@);
    let mut deeprem = deep;
    let mut subfolders: Vec<SubFolder> = Vec::new();
    let ns = subnames.len();
    let mut m: usize = 0;
    proof {
        assert(sv.take(0) =~= Seq::<Seq<char>>::empty());
        assert forall|i: int| 0 <= i < deep0.len() implies second_notin_pred(sv.take(0))(
            #[trigger] deep0[i],
        ) by {
            assert(!sv.take(0).contains(top_segment(deep0[i].path@)));
        }
        lemma_filter_all(deep0, second_notin_pred(sv.take(0)));
    }
    while m < ns
        invariant
            ns == subnames@.len(),
            m <= ns,
            sv.len() == ns,
            forall|i: int| 0 <= i < ns ==> sv[i] == subnames@[i]@,
            names_strictly_sorted(subnames@),
            forall|s2: Seq<char>|
                seq_has_name(subnames@, s2) <==> (exists|j: int|
                    0 <= j < deep0.len() && second_segment(#[trigger] deep0[j].path@) == s2),
            forall|i: int|
                0 <= i < deep0.len() ==> is_deep_path(#[trigger] deep0[i].path@) && top_segment(
                    deep0[i].path@,
                ) == d@,
            deep0 == input.filter(in_deep_pred(d@)),
            deeprem@ == deep0.filter(second_notin_pred(sv.take(m as int))),
            subfolders@.len() == m,
            forall|i: int| 0 <= i < m ==> (#[trigger] subfolders@[i].name@) == subnames@[i]@,
            forall|i: int| 0 <= i < m ==> subfolder_wf(#[trigger] subfolders@[i], input, d@),
        decreases ns - m,
    {
        let s = &subnames[m];
        proof {
            broadcast use vstd::seq_lib::group_filter_ensures;

            assert forall|i: int| 0 <= i < deeprem@.len() implies is_deep_path(
                #[trigger] deeprem@[i].path@,
            ) by {
                lemma_filter_member(deep0, second_notin_pred(sv.take(m as int)), i);
                let a = choose|a: int| 0 <= a < deep0.len() && deep0[a] == deeprem@[i];
                assert(is_deep_path(deep0[a].path@));
            }
        }
        let (sfiles, drem) = split_second(deeprem, s);
        proof {
            // The name is new to the processed prefix, so earlier removals
            // did not touch its entries.
            assert(!sv.take(m as int).contains(s@)) by {
                if sv.take(m as int).contains(s@) {
                    let i = choose|i: int|
                        0 <= i < sv.take(m as int).len() && sv.take(m as int)[i] == s@;
                    assert(sv.take(m as int)[i] == sv[i]);
                    assert(subnames@[i]@ == s@);
                    assert(subnames@[m as int]@ == s@);
                    assert(lex_le(subnames@[i]@, subnames@[m as int]@) && subnames@[i]@
                        != subnames@[m as int]@);
                }
            }
            assert(forall|x: FileMeta| #[trigger] second_is_pred(s@)(x) == (second_notin_pred(
                sv.take(m as int),
            )(x) && second_is_pred(s@)(x)));
            lemma_filter_compose(
                deep0,
                second_notin_pred(sv.take(m as int)),
                second_is_pred(s@),
                second_is_pred(s@),
            );
            assert(sfiles@ == deep0.filter(second_is_pred(s@)));
            assert(forall|x: FileMeta| #[trigger] in_sub_pred(d@, s@)(x) == (in_deep_pred(d@)(x)
                && second_is_pred(s@)(x)));
            lemma_filter_compose(input, in_deep_pred(d@), second_is_pred(s@), in_sub_pred(d@, s@));
            assert(sfiles@ == input.filter(in_sub_pred(d@, s@)));
            // The leftover is the entries under none of the names seen so far.
            assert(sv.take(m as int + 1) =~= sv.take(m as int).push(s@));
            assert forall|x: FileMeta| #[trigger] second_notin_pred(sv.take(m as int + 1))(x) == (
            second_notin_pred(sv.take(m as int))(x) && second_off_pred(s@)(x)) by {
                lemma_contains_push(sv.take(m as int), s@, second_segment(x.path@));
            }
            lemma_filter_compose(
                deep0,
                second_notin_pred(sv.take(m as int)),
                second_off_pred(s@),
                second_notin_pred(sv.take(m as int + 1)),
            );
            assert(drem@ == deep0.filter(second_notin_pred(sv.take(m as int + 1))));
        }
        let ghost sfiles0 = sfiles@;
        let sorted = sort_files(sfiles);
        let path = d.clone().concat("/").concat(s.as_str());
        proof {
            reveal_strlit("/");
            assert(path@ =~= d@ + seq!['/'] + s@);
        }
        subfolders.push(SubFolder { name: s.clone(), path, files: sorted });
        proof {
            let sf = subfolders@.last();
            assert(sf.files@.to_multiset() == input.filter(in_sub_pred(d@, sf.name@)).to_multiset());
            assert(subfolder_wf(sf, input, d@));
            assert(forall|i: int|
                0 <= i < m ==> (#[trigger] subfolders@[i]) == subfolders@.drop_last()[i]);
        }
        deeprem = drem;
        m = m + 1;
    }
    let folder = Folder {
        name: d.clone(),
        path: d.clone(),
        files: files_sorted,
        subfolders,
    };
    proof {
        // One subfolder exists per distinct second segment of the input's
        // deep entries under this folder.
        broadcast use vstd::seq_lib::group_filter_ensures;

        assert forall|s2: Seq<char>|
            has_sub(folder.subfolders@, s2) <==> (exists|j: int|
                0 <= j < input.len() && in_sub_pred(d@, s2)(#[trigger] input[j])) by {
            if has_sub(folder.subfolders@, s2) {
                let i = choose|i: int|
                    0 <= i < folder.subfolders@.len() && folder.subfolders@[i].name@ == s2;
                assert(subnames@[i]@ == s2);
                assert(seq_has_name(subnames@, s2));
                let j = choose|j: int|
                    0 <= j < deep0.len() && second_segment(#[trigger] deep0[j].path@) == s2;
                lemma_filter_member(input, in_deep_pred(d@), j);
                let a = choose|a: int| 0 <= a < input.len() && input[a] == deep0[j];
                input.lemma_filter_pred(in_deep_pred(d@), j);
                assert(in_deep_pred(d@)(input[a]));
                assert(in_sub_pred(d@, s2)(input[a]));
            }
            if exists|j: int| 0 <= j < input.len() && in_sub_pred(d@, s2)(#[trigger] input[j]) {
                let j = choose|j: int|
                    0 <= j < input.len() && in_sub_pred(d@, s2)(#[trigger] input[j]);
                assert(in_deep_pred(d@)(input[j]));
                input.lemma_filter_contains(in_deep_pred(d@), j);
                assert(deep0.contains(input[j]));
                let a = choose|a: int| 0 <= a < deep0.len() && deep0[a] == input[j];
                assert(second_segment(deep0[a].path@) == s2);
                assert(seq_has_name(subnames@, s2));
                let i = choose|i: int| 0 <= i < subnames@.len() && subnames@[i]@ == s2;
                assert(folder.subfolders@[i].name@ == s2);
            }
        }
    }
    folder
}

/// Groups the flat entry list into the displayed tree: root-level files
/// first, in traversal order, then one folder per distinct first segment, in
/// name order.
pub fn build_tree(files: Vec<FileMeta>) -> (r: Tree)
    ensures
        tree_wf(r, files@),
{
    let ghost input = files@;
    let (root_files, rest) = split_root(files);
    let ghost rest0 = rest@;
    proof {
        broadcast use vstd::seq_lib::group_filter_ensures;

        assert forall|i: int| 0 <= i < rest0.len() implies !is_root_path(
            #[trigger] rest0[i].path@,
        ) by {
            input.lemma_filter_pred(off_root_pred(), i);
            assert(off_root_pred()(rest0[i]));
        }
    }
    let dirs = collect_top_names(&rest);
    let ghost dv = dirs@.map_values(|x: String| x@);
    let mut remaining = rest;
    let mut folders: Vec<Folder> = Vec::new();
    let nd = dirs.len();
    let mut k: usize = 0;
    proof {
        assert(dv.take(0) =~= Seq::<Seq<char>>::empty());
        assert forall|i: int| 0 <= i < rest0.len() implies top_notin_pred(dv.take(0))(
            #[trigger] rest0[i],
        ) by {
            assert(!dv.take(0).contains(top_segment(rest0[i].path@)));
        }
        lemma_filter_all(rest0, top_notin_pred(dv.take(0)));
    }
    while k < nd
        invariant
            nd == dirs@.len(),
            k <= nd,
            dv.len() == nd,
            forall|i: int| 0 <= i < nd ==> dv[i] == dirs@[i]@,
            names_strictly_sorted(dirs@),
            forall|d2: Seq<char>|
                seq_has_name(dirs@, d2) <==> (exists|j: int|
                    0 <= j < rest0.len() && top_segment(#[trigger] rest0[j].path@) == d2),
            forall|i: int| 0 <= i < rest0.len() ==> !is_root_path(#[trigger] rest0[i].path@),
            rest0 == input.filter(off_root_pred()),
            remaining@ == rest0.filter(top_notin_pred(dv.take(k as int))),
            folders@.len() == k,
            forall|i: int| 0 <= i < k ==> (#[trigger] folders@[i].name@) == dirs@[i]@,
            forall|i: int| 0 <= i < k ==> folder_wf(#[trigger] folders@[i], input),
        decreases nd - k,
    {
        let d = &dirs[k];
        let (mine, rem2) = split_top(remaining, d);
        proof {
            assert(!dv.take(k as int).contains(d@)) by {
                if dv.take(k as int).contains(d@) {
                    let i = choose|i: int|
                        0 <= i < dv.take(k as int).len() && dv.take(k as int)[i] == d@;
                    assert(dv.take(k as int)[i] == dv[i]);
                    assert(dirs@[i]@ == d@);
                    assert(dirs@[k as int]@ == d@);
                    assert(lex_le(dirs@[i]@, dirs@[k as int]@) && dirs@[i]@ != dirs@[k as int]@);
                }
            }
            assert(forall|x: FileMeta| #[trigger] top_is_pred(d@)(x) == (top_notin_pred(
                dv.take(k as int),
            )(x) && top_is_pred(d@)(x)));
            lemma_filter_compose(
                rest0,
                top_notin_pred(dv.take(k as int)),
                top_is_pred(d@),
                top_is_pred(d@),
            );
            assert(mine@ == rest0.filter(top_is_pred(d@)));
            assert(forall|x: FileMeta| #[trigger] in_top_pred(d@)(x) == (off_root_pred()(x)
                && top_is_pred(d@)(x)));
            lemma_filter_compose(input, off_root_pred(), top_is_pred(d@), in_top_pred(d@));
            assert(mine@ == input.filter(in_top_pred(d@)));
            assert(dv.take(k as int + 1) =~= dv.take(k as int).push(d@));
            assert forall|x: FileMeta| #[trigger] top_notin_pred(dv.take(k as int + 1))(x) == (
            top_notin_pred(dv.take(k as int))(x) && top_off_pred(d@)(x)) by {
                lemma_contains_push(dv.take(k as int), d@, top_segment(x.path@));
            }
            lemma_filter_compose(
                rest0,
                top_notin_pred(dv.take(k as int)),
                top_off_pred(d@),
                top_notin_pred(dv.take(k as int + 1)),
            );
            assert(rem2@ == rest0.filter(top_notin_pred(dv.take(k as int + 1))));
        }
        let folder = build_folder(mine, d, Ghost(input));
        folders.push(folder);
        proof {
            assert(forall|i: int|
                0 <= i < k ==> (#[trigger] folders@[i]) == folders@.drop_last()[i]);
            assert(folders@[k as int].name@ == dirs@[k as int]@);
        }
        remaining = rem2;
        k = k + 1;
    }
    let t = Tree { root_files, folders };
    proof {
        broadcast use vstd::seq_lib::group_filter_ensures;

        assert forall|i: int, j: int| 0 <= i < j < t.folders@.len() implies lex_le(
            t.folders@[i].name@,
            t.folders@[j].name@,
        ) && t.folders@[i].name@ != t.folders@[j].name@ by {
            assert(t.folders@[i].name@ == dirs@[i]@);
            assert(t.folders@[j].name@ == dirs@[j]@);
            assert(lex_le(dirs@[i]@, dirs@[j]@) && dirs@[i]@ != dirs@[j]@);
        }
        assert forall|d2: Seq<char>|
            has_folder(t.folders@, d2) <==> (exists|j: int|
                0 <= j < input.len() && in_top_pred(d2)(#[trigger] input[j])) by {
            if has_folder(t.folders@, d2) {
                let i = choose|i: int| 0 <= i < t.folders@.len() && t.folders@[i].name@ == d2;
                assert(dirs@[i]@ == d2);
                assert(seq_has_name(dirs@, d2));
                let j = choose|j: int|
                    0 <= j < rest0.len() && top_segment(#[trigger] rest0[j].path@) == d2;
                lemma_filter_member(input, off_root_pred(), j);
                let a = choose|a: int| 0 <= a < input.len() && input[a] == rest0[j];
                assert(!is_root_path(input[a].path@));
                assert(in_top_pred(d2)(input[a]));
            }
            if exists|j: int| 0 <= j < input.len() && in_top_pred(d2)(#[trigger] input[j]) {
                let j = choose|j: int| 0 <= j < input.len() && in_top_pred(d2)(#[trigger] input[j]);
                assert(off_root_pred()(input[j]));
                input.lemma_filter_contains(off_root_pred(), j);
                assert(rest0.contains(input[j]));
                let a = choose|a: int| 0 <= a < rest0.len() && rest0[a] == input[j];
                assert(top_segment(rest0[a].path@) == d2);
                assert(seq_has_name(dirs@, d2));
                let i = choose|i: int| 0 <= i < dirs@.len() && dirs@[i]@ == d2;
                assert(t.folders@[i].name@ == d2);
            }
        }
    }
    t
}

} // verus!
