//! The repackaging plan: the working directory is serialized into a zip
//! archive written to a temporary sibling of the original file and then
//! renamed over it. The rename is the atomicity boundary: a failure at any
//! earlier step leaves the original archive untouched. The mimetype entry is
//! stored without compression; every other entry is deflated.

use vstd::prelude::*;
use vstd::string::*;
use crate::strutil::str_eq;

verus! {

/// How a zip entry is to be written.
#[derive(Clone, Copy, Debug, PartialEq, Eq, Structural)]
pub enum Compression {
    /// Stored as-is, without compression; required for the mimetype entry.
    Stored,
    /// Standard deflate compression; every other entry.
    Deflated,
}

/// One entry of the archive to be written: the path inside the archive and
/// its compression, in traversal order. The bytes come from the working
/// directory at that path.
pub struct PlanEntry {
    pub path: String,
    pub method: Compression,
}

/// The whole repackaging plan: write every entry into the temporary file,
/// then rename the temporary file over the destination. No step before the
/// rename names the destination.
pub struct RepackPlan {
    /// The temporary sibling that receives the new archive.
    pub temp_path: String,
    /// The original archive file, replaced only by the final rename.
    pub dest_path: String,
    /// The entries to write, in working-directory traversal order.
    pub entries: Vec<PlanEntry>,
}

/// Builds the plan for serializing the given working-directory files back
/// into the archive at `identity`.
pub fn repack_plan(identity: &String, files: &Vec<String>) -> (r: RepackPlan)
    ensures
        r.dest_path@ == identity@,
        r.temp_path@ == identity@ + ".zip.tmp"@,
        r.temp_path@ != identity@,
        r.entries@.len() == files@.len(),
        forall|i: int| 0 <= i < files@.len() ==> (#[trigger] r.entries@[i].path@) == files@[i]@,
        forall|i: int|
            0 <= i < files@.len() ==> ((#[trigger] r.entries@[i].method) == Compression::Stored
                <==> files@[i]@ == "mimetype"@),
{
    let temp_path = identity.clone().concat(".zip.tmp");
    proof {
        reveal_strlit(".zip.tmp");
        assert(temp_path@.len() == identity@.len() + 8);
    }
    let dest_path = identity.clone();
    let mut entries: Vec<PlanEntry> = Vec::new();
    let n = files.len();
    let mut i: usize = 0;
    while i < n
        invariant
            n == files@.len(),
            i <= n,
            entries@.len() == i,
            forall|j: int| 0 <= j < i ==> (#[trigger] entries@[j].path@) == files@[j]@,
            forall|j: int|
                0 <= j < i ==> ((#[trigger] entries@[j].method) == Compression::Stored <==> files@[
                    j
                ]@ == "mimetype"@),
        decreases n - i,
    {
        let p = &files[i];
        let method = if str_eq(p.as_str(), "mimetype") {
            Compression::Stored
        } else {
            Compression::Deflated
        };
        entries.push(PlanEntry { path: p.clone(), method });
        i = i + 1;
    }
    RepackPlan { temp_path, dest_path, entries }
}

/// The archive produced by executing a run of plan entries against a working
/// directory: each entry's path is bound to the bytes the directory holds
/// there.
pub open spec fn archive_of(entries: Seq<PlanEntry>, dir: Map<Seq<char>, Seq<u8>>) -> Map<
    Seq<char>,
    Seq<u8>,
>
    decreases entries.len(),
{
    if entries.len() == 0 {
        Map::empty()
    } else {
        archive_of(entries.drop_last(), dir).insert(
            entries.last().path@,
            dir[entries.last().path@],
        )
    }
}

/// The produced archive binds exactly the entry paths, to the directory's
/// bytes.
pub proof fn lemma_archive_of(entries: Seq<PlanEntry>, dir: Map<Seq<char>, Seq<u8>>)
    ensures
        forall|k: Seq<char>|
            archive_of(entries, dir).contains_key(k) <==> exists|i: int|
                0 <= i < entries.len() && (#[trigger] entries[i].path@) == k,
        forall|k: Seq<char>| #[trigger]
            archive_of(entries, dir).contains_key(k) ==> archive_of(entries, dir)[k] == dir[k],
    decreases entries.len(),
{
    if entries.len() > 0 {
        let dl = entries.drop_last();
        lemma_archive_of(dl, dir);
        assert(archive_of(entries, dir) == archive_of(dl, dir).insert(
            entries.last().path@,
            dir[entries.last().path@],
        ));
        assert forall|k: Seq<char>| archive_of(entries, dir).contains_key(k) implies exists|i: int|
            0 <= i < entries.len() && (#[trigger] entries[i].path@) == k by {
            if k == entries.last().path@ {
                assert(entries[entries.len() - 1].path@ == k);
            } else {
                let i = choose|i: int| 0 <= i < dl.len() && (#[trigger] dl[i].path@) == k;
                assert(entries[i].path@ == k);
            }
        }
        assert forall|k: Seq<char>|
            (exists|i: int| 0 <= i < entries.len() && (#[trigger] entries[i].path@) == k) implies
            archive_of(entries, dir).contains_key(k) by {
            let i = choose|i: int| 0 <= i < entries.len() && (#[trigger] entries[i].path@) == k;
            if i < entries.len() - 1 {
                assert(dl[i].path@ == k);
            }
        }
    }
}

/// Round trip: when the plan's entries list exactly the files of the working
/// directory — as they do for a plan built from its traversal — the archive
/// written by the plan binds exactly the directory's paths to the
/// directory's bytes. Re-extracting it reproduces the directory, and so the
/// file set of the archive it came from.
pub proof fn lemma_repack_round_trip(
    plan: RepackPlan,
    files: Seq<String>,
    dir: Map<Seq<char>, Seq<u8>>,
)
    requires
        plan.entries@.len() == files.len(),
        forall|i: int| 0 <= i < files.len() ==> (#[trigger] plan.entries@[i].path@) == files[i]@,
        forall|k: Seq<char>|
            dir.contains_key(k) <==> exists|i: int|
                0 <= i < files.len() && (#[trigger] files[i]@) == k,
    ensures
        archive_of(plan.entries@, dir) == dir,
{
    lemma_archive_of(plan.entries@, dir);
    assert forall|k: Seq<char>| archive_of(plan.entries@, dir).contains_key(k) implies
        dir.contains_key(k) by {
        let i = choose|i: int| 0 <= i < plan.entries@.len() && (#[trigger] plan.entries@[i].path@)
            == k;
        assert(files[i]@ == k);
    }
    assert forall|k: Seq<char>| dir.contains_key(k) implies archive_of(
        plan.entries@,
        dir,
    ).contains_key(k) by {
        let i = choose|i: int| 0 <= i < files.len() && (#[trigger] files[i]@) == k;
        assert(plan.entries@[i].path@ == k);
    }
    assert(archive_of(plan.entries@, dir) =~= dir);
}

/// Atomic replacement: the temporary file a plan writes to is never the
/// original archive, so a failure at any step before the final rename —
/// opening the temporary file, reading a source file, writing an entry —
/// leaves the original archive untouched.
pub proof fn lemma_repack_atomic(plan: RepackPlan, identity: Seq<char>)
    requires
        plan.dest_path@ == identity,
        plan.temp_path@ == identity + ".zip.tmp"@,
    ensures
        plan.temp_path@ != plan.dest_path@,
{
    reveal_strlit(".zip.tmp");
    assert(plan.temp_path@.len() == identity.len() + 8);
}

} // verus!
