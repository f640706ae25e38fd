//! The model of archive-relative paths: `/`-separated, split into segments by
//! their slashes. A path's first segment decides its top-level folder, its
//! second segment the subfolder, and its last segment the displayed name.

use vstd::prelude::*;
use vstd::string::*;
use crate::strutil::{is_prefix, has_prefix, str_eq};

verus! {

/// Whether the path contains a separator at all.
pub open spec fn has_slash(p: Seq<char>) -> bool {
    exists|i: int| 0 <= i < p.len() && p[i] == '/'
}

/// `i` is the position of the first separator.
pub open spec fn is_first_slash(p: Seq<char>, i: int) -> bool {
    0 <= i < p.len() && p[i] == '/' && (forall|j: int| 0 <= j < i ==> p[j] != '/')
}

/// `i` is the position of the last separator.
pub open spec fn is_last_slash(p: Seq<char>, i: int) -> bool {
    0 <= i < p.len() && p[i] == '/' && (forall|j: int| i < j < p.len() ==> p[j] != '/')
}

/// The position of the first separator, when one exists.
pub open spec fn first_slash(p: Seq<char>) -> int {
    choose|i: int| is_first_slash(p, i)
}

/// The position of the last separator, when one exists.
pub open spec fn last_slash(p: Seq<char>) -> int {
    choose|i: int| is_last_slash(p, i)
}

/// The first separator position is unique, so `first_slash` names it.
pub proof fn lemma_first_slash(p: Seq<char>, i: int)
    requires
        is_first_slash(p, i),
    ensures
        first_slash(p) == i,
{
    let k = first_slash(p);
    assert(is_first_slash(p, k));
}

/// The last separator position is unique, so `last_slash` names it.
pub proof fn lemma_last_slash(p: Seq<char>, i: int)
    requires
        is_last_slash(p, i),
    ensures
        last_slash(p) == i,
{
    let k = last_slash(p);
    assert(is_last_slash(p, k));
}

/// A root-level path: a single segment, no separator.
pub open spec fn is_root_path(p: Seq<char>) -> bool {
    !has_slash(p)
}

/// A two-segment path: its only separator is both first and last.
pub open spec fn is_direct_path(p: Seq<char>) -> bool {
    has_slash(p) && first_slash(p) == last_slash(p)
}

/// A path of three or more segments: two distinct separators exist.
pub open spec fn is_deep_path(p: Seq<char>) -> bool {
    has_slash(p) && first_slash(p) != last_slash(p)
}

/// The first segment: everything before the first separator, or the whole
/// path when there is none.
pub open spec fn top_segment(p: Seq<char>) -> Seq<char> {
    if has_slash(p) {
        p.take(first_slash(p))
    } else {
        p
    }
}

/// The last segment: everything after the last separator, or the whole path
/// when there is none.
pub open spec fn base_name(p: Seq<char>) -> Seq<char> {
    if has_slash(p) {
        p.skip(last_slash(p) + 1)
    } else {
        p
    }
}

/// The second segment of a path with at least three segments.
pub open spec fn second_segment(p: Seq<char>) -> Seq<char>
    recommends
        is_deep_path(p),
{
    top_segment(p.skip(first_slash(p) + 1))
}

/// Finds the first separator of the path.
pub fn find_first_slash(p: &str) -> (r: Option<usize>)
    ensures
        match r {
            Option::Some(i) => is_first_slash(p@, i as int),
            Option::None => !has_slash(p@),
        },
{
    let n = p.unicode_len();
    let mut i: usize = 0;
    while i < n
        invariant
            n == p@.len(),
            i <= n,
            forall|j: int| 0 <= j < i ==> p@[j] != '/',
        decreases n - i,
    {
        if p.get_char(i) == '/' {
            return Option::Some(i);
        }
        i = i + 1;
    }
    Option::None
}

/// Finds the last separator of the path.
pub fn find_last_slash(p: &str) -> (r: Option<usize>)
    ensures
        match r {
            Option::Some(i) => is_last_slash(p@, i as int),
            Option::None => !has_slash(p@),
        },
{
    let n = p.unicode_len();
    let mut i: usize = n;
    while i > 0
        invariant
            n == p@.len(),
            i <= n,
            forall|j: int| i <= j < n ==> p@[j] != '/',
        decreases i,
    {
        i = i - 1;
        if p.get_char(i) == '/' {
            return Option::Some(i);
        }
    }
    Option::None
}

/// How many segments the path has: one, two, or more.
#[derive(Clone, Copy, Debug, PartialEq, Eq, Structural)]
pub enum PathShape {
    Root,
    Direct,
    Deep,
}

/// Classifies a path by its number of segments.
pub fn path_shape(p: &str) -> (r: PathShape)
    ensures
        r == PathShape::Root <==> is_root_path(p@),
        r == PathShape::Direct <==> is_direct_path(p@),
        r == PathShape::Deep <==> is_deep_path(p@),
{
    let first = find_first_slash(p);
    let last = find_last_slash(p);
    match (first, last) {
        (Option::Some(f), Option::Some(l)) => {
            proof {
                lemma_first_slash(p@, f as int);
                lemma_last_slash(p@, l as int);
            }
            if f == l {
                PathShape::Direct
            } else {
                PathShape::Deep
            }
        },
        _ => {
            PathShape::Root
        },
    }
}

/// Copies the first segment out of the path.
pub fn top_segment_of(p: &str) -> (r: String)
    ensures
        r@ == top_segment(p@),
{
    match find_first_slash(p) {
        Option::Some(i) => {
            proof {
                lemma_first_slash(p@, i as int);
            }
            let s = p.substring_char(0, i);
            proof {
                assert(s@ =~= p@.take(i as int));
            }
            String::from_str(s)
        },
        Option::None => String::from_str(p),
    }
}

/// Copies the last segment out of the path.
pub fn base_name_of(p: &str) -> (r: String)
    ensures
        r@ == base_name(p@),
{
    let n = p.unicode_len();
    match find_last_slash(p) {
        Option::Some(i) => {
            proof {
                lemma_last_slash(p@, i as int);
            }
            let s = p.substring_char(i + 1, n);
            proof {
                assert(s@ =~= p@.skip(i as int + 1));
            }
            String::from_str(s)
        },
        Option::None => String::from_str(p),
    }
}

/// Copies the second segment out of a path with at least three segments.
pub fn second_segment_of(p: &str) -> (r: String)
    requires
        is_deep_path(p@),
    ensures
        r@ == second_segment(p@),
{
    let n = p.unicode_len();
    let first = find_first_slash(p);
    match first {
        Option::Some(f) => {
            proof {
                lemma_first_slash(p@, f as int);
            }
            let rest = p.substring_char(f + 1, n);
            proof {
                assert(rest@ =~= p@.skip(f as int + 1));
            }
            top_segment_of(rest)
        },
        Option::None => {
            proof {
                assert(is_first_slash(p@, first_slash(p@)));
                assert(false);
            }
            String::new()
        },
    }
}

/// The path with every backslash replaced by a forward slash: archive paths
/// use `/` whatever the host convention.
pub open spec fn separators_normalized(p: Seq<char>) -> Seq<char> {
    p.map_values(|c: char| if c == '\\' { '/' } else { c })
}

/// Rewrites host-convention separators to `/`.
pub fn normalize_separators(p: &str) -> (r: String)
    ensures
        r@ == separators_normalized(p@),
{
    let n = p.unicode_len();
    let mut out = String::new();
    let mut i: usize = 0;
    while i < n
        invariant
            n == p@.len(),
            i <= n,
            out@.len() == i,
            forall|j: int| 0 <= j < i ==> out@[j] == (if p@[j] == '\\' { '/' } else { p@[j] }),
        decreases n - i,
    {
        let c = p.get_char(i);
        if c == '\\' {
            out.append("/");
            proof {
                reveal_strlit("/");
            }
        } else {
            let piece = p.substring_char(i, i + 1);
            out.append(piece);
            proof {
                assert(piece@ =~= seq![c]);
            }
        }
        i = i + 1;
    }
    proof {
        assert(out@ =~= separators_normalized(p@));
    }
    out
}

/// Entries under the container metadata directory, and the mimetype entry,
/// exist on disk but are kept out of the displayed tree.
pub open spec fn excluded_from_tree(p: Seq<char>) -> bool {
    is_prefix("META-INF"@, p) || p == "mimetype"@
}

/// Tests whether a path is hidden from the displayed tree.
pub fn is_excluded_from_tree(p: &str) -> (r: bool)
    ensures
        r == excluded_from_tree(p@),
{
    if has_prefix(p, "META-INF") {
        true
    } else {
        str_eq(p, "mimetype")
    }
}

/// One path lies underneath another: equal to it, or strictly below the
/// directory it names. Mutations of a path invalidate everything it covers.
pub open spec fn path_covers(p: Seq<char>, k: Seq<char>) -> bool {
    k == p || is_prefix(p + seq!['/'], k)
}

/// Tests whether `k` is `p` itself or lies below the directory `p`.
pub fn covers(p: &str, k: &str) -> (r: bool)
    ensures
        r == path_covers(p@, k@),
{
    if str_eq(k, p) {
        return true;
    }
    let np = p.unicode_len();
    let nk = k.unicode_len();
    if nk <= np {
        proof {
            assert(!is_prefix(p@ + seq!['/'], k@));
        }
        return false;
    }
    let head = k.substring_char(0, np);
    proof {
        assert(head@ =~= k@.take(np as int));
    }
    if str_eq(head, p) {
        let r = k.get_char(np) == '/';
        proof {
            if k@[np as int] == '/' {
                assert(k@.take(np as int + 1) =~= p@ + seq!['/']);
            } else {
                assert((p@ + seq!['/'])[np as int] == '/');
                if is_prefix(p@ + seq!['/'], k@) {
                    assert(k@.take(np as int + 1)[np as int] == k@[np as int]);
                }
            }
        }
        r
    } else {
        proof {
            if is_prefix(p@ + seq!['/'], k@) {
                assert(forall|j: int| 0 <= j < np ==> k@.take(np as int + 1)[j] == (p@
                    + seq!['/'])[j]);
                assert(k@.take(np as int) =~= p@);
            }
        }
        false
    }
}

} // verus!
