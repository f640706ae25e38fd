//! Match counting across working files. Literal substring counting is
//! implemented and verified here; regular-expression matching is delegated to
//! the fancy-regex crate behind trusted wrappers, and everything around the
//! calls — pattern gating, per-file iteration, saturating summation — is
//! verified.

use vstd::prelude::*;
use vstd::string::*;
use crate::errors::EpubError;
use crate::ops::views_of;

verus! {

/// Number of non-overlapping occurrences of `pat` in `text`, scanning left to
/// right; the empty pattern matches at every character boundary.
pub open spec fn occurrence_count(text: Seq<char>, pat: Seq<char>) -> nat
    decreases text.len(),
{
    if pat.len() == 0 {
        text.len() + 1
    } else if text.len() < pat.len() {
        0
    } else if text.take(pat.len() as int) == pat {
        1 + occurrence_count(text.skip(pat.len() as int), pat)
    } else {
        occurrence_count(text.skip(1), pat)
    }
}

/// A nonempty pattern occurs at most once per character.
pub proof fn lemma_occurrence_count_bound(text: Seq<char>, pat: Seq<char>)
    requires
        pat.len() > 0,
    ensures
        occurrence_count(text, pat) <= text.len(),
    decreases text.len(),
{
    if text.len() >= pat.len() {
        if text.take(pat.len() as int) == pat {
            lemma_occurrence_count_bound(text.skip(pat.len() as int), pat);
        } else {
            lemma_occurrence_count_bound(text.skip(1), pat);
        }
    }
}

/// Whether the pattern occurs at position `i`.
fn matches_at(text: &str, pat: &str, i: usize, n: usize, m: usize) -> (r: bool)
    requires
        n == text@.len(),
        m == pat@.len(),
        i + m <= n,
    ensures
        r == (text@.skip(i as int).take(m as int) == pat@),
{
    let mut k: usize = 0;
    while k < m
        invariant
            n == text@.len(),
            m == pat@.len(),
            i + m <= n,
            k <= m,
            forall|j: int| 0 <= j < k ==> text@[i + j] == pat@[j],
        decreases m - k,
    {
        let ct = text.get_char(i + k);
        let cp = pat.get_char(k);
        if ct != cp {
            proof {
                assert(text@.skip(i as int).take(m as int)[k as int] == text@[i + k]);
            }
            return false;
        }
        k = k + 1;
    }
    proof {
        assert(text@.skip(i as int).take(m as int) =~= pat@);
    }
    true
}

/// Counts the non-overlapping occurrences of a literal pattern, scanning
/// left to right. An empty pattern's count is capped at the machine word.
pub fn count_occurrences(text: &str, pat: &str) -> (r: usize)
    ensures
        pat@.len() > 0 ==> r as nat == occurrence_count(text@, pat@),
        pat@.len() == 0 ==> r as nat == (if text@.len() + 1 <= usize::MAX as nat {
            text@.len() + 1
        } else {
            usize::MAX as nat
        }),
{
    let n = text.unicode_len();
    let m = pat.unicode_len();
    if m == 0 {
        if n == usize::MAX {
            return usize::MAX;
        }
        return n + 1;
    }
    if m > n {
        return 0;
    }
    let mut count: usize = 0;
    let mut i: usize = 0;
    proof {
        assert(text@.skip(0) =~= text@);
    }
    while i <= n - m
        invariant
            n == text@.len(),
            m == pat@.len(),
            0 < m <= n,
            i <= n,
            count <= i,
            occurrence_count(text@, pat@) == count + occurrence_count(text@.skip(i as int), pat@),
        decreases n - i,
    {
        proof {
            assert(text@.skip(i as int).len() == n - i);
        }
        if matches_at(text, pat, i, n, m) {
            proof {
                assert(text@.skip(i as int).skip(m as int) =~= text@.skip(i as int + m as int));
            }
            count = count + 1;
            i = i + m;
        } else {
            proof {
                assert(text@.skip(i as int).skip(1) =~= text@.skip(i as int + 1));
            }
            i = i + 1;
        }
    }
    proof {
        assert(text@.skip(i as int).len() < m);
    }
    count
}

/// Whether fancy-regex accepts a pattern; acceptance is a function of the
/// pattern alone.
pub uninterp spec fn regex_ok(pattern: Seq<char>) -> bool;

/// How many non-overlapping matches the pattern finds in a text; a function
/// of the pattern and the text alone.
pub uninterp spec fn regex_match_count(pattern: Seq<char>, text: Seq<char>) -> nat;

/// Relies on fancy_regex::Regex::new: parsing and compiling the pattern
/// either succeeds or fails deterministically, from the pattern alone.
#[verifier::external_body]
fn regex_compiles(pattern: &str) -> (r: bool)
    ensures
        r == regex_ok(pattern@),
{
    fancy_regex::Regex::new(pattern).is_ok()
}

/// Relies on fancy_regex::Regex::find_iter: it yields the successive
/// non-overlapping matches of the pattern in the text, determined by the
/// pattern and the text alone.
#[verifier::external_body]
fn regex_count(pattern: &str, text: &str) -> (r: usize)
    requires
        regex_ok(pattern@),
    ensures
        r as nat == regex_match_count(pattern@, text@),
{
    match fancy_regex::Regex::new(pattern) {
        Ok(re) => re.find_iter(text).filter(|m| m.is_ok()).count(),
        Err(_) => 0,
    }
}

/// The total number of literal occurrences across a run of file contents.
pub open spec fn literal_total(contents: Seq<Seq<char>>, pat: Seq<char>) -> nat
    decreases contents.len(),
{
    if contents.len() == 0 {
        0
    } else {
        literal_total(contents.drop_last(), pat) + occurrence_count(contents.last(), pat)
    }
}

/// The total number of regular-expression matches across a run of file
/// contents.
pub open spec fn regex_total(contents: Seq<Seq<char>>, pat: Seq<char>) -> nat
    decreases contents.len(),
{
    if contents.len() == 0 {
        0
    } else {
        regex_total(contents.drop_last(), pat) + regex_match_count(pat, contents.last())
    }
}

/// A total capped at the machine word: sums saturate rather than wrap.
pub open spec fn capped(x: nat) -> nat {
    if x <= usize::MAX as nat {
        x
    } else {
        usize::MAX as nat
    }
}

/// Counts the matches of a pattern across many file contents, as a literal
/// substring or as a regular expression; a malformed regular expression is
/// rejected, and the sum saturates at the machine word.
pub fn search_count(contents: &Vec<String>, pattern: &String, is_regex: bool) -> (r: Result<
    usize,
    EpubError,
>)
    ensures
        match r {
            Result::Ok(c) => {
                &&& (is_regex ==> regex_ok(pattern@) && c as nat == capped(
                    regex_total(views_of(contents@), pattern@),
                ))
                &&& (!is_regex ==> c as nat == capped(literal_total(views_of(contents@), pattern@)))
            },
            Result::Err(e) => is_regex && !regex_ok(pattern@) && e == EpubError::Pattern,
        },
{
    if is_regex {
        if !regex_compiles(pattern.as_str()) {
            return Result::Err(EpubError::Pattern);
        }
    }
    let n = contents.len();
    let mut acc: usize = 0;
    let mut i: usize = 0;
    proof {
        assert(views_of(contents@.take(0)) =~= Seq::<Seq<char>>::empty());
    }
    while i < n
        invariant
            n == contents@.len(),
            i <= n,
            is_regex ==> regex_ok(pattern@),
            is_regex ==> acc as nat == capped(regex_total(views_of(contents@.take(i as int)),
                pattern@)),
            !is_regex ==> acc as nat == capped(literal_total(views_of(contents@.take(i as int)),
                pattern@)),
        decreases n - i,
    {
        let item = &contents[i];
        let c: usize = if is_regex {
            regex_count(pattern.as_str(), item.as_str())
        } else {
            count_occurrences(item.as_str(), pattern.as_str())
        };
        proof {
            let prev = views_of(contents@.take(i as int));
            let cur = views_of(contents@.take(i as int + 1));
            assert(cur =~= prev.push(item@));
            assert(cur.drop_last() =~= prev);
            assert(cur.last() == item@);
            if !is_regex && pattern@.len() > 0 {
                lemma_occurrence_count_bound(item@, pattern@);
            }
        }
        if acc > usize::MAX - c {
            acc = usize::MAX;
        } else {
            acc = acc + c;
        }
        i = i + 1;
    }
    proof {
        assert(contents@.take(n as int) =~= contents@);
    }
    Result::Ok(acc)
}

} // verus!
