//! Assembling a fingerprint table from the files found under a root.
use vstd::prelude::*;
use crate::digest::{digest_hex, digest_of, lemma_digest_distinguishes, sha256_of};
use crate::table::{FingerprintTable, keys_distinct, lemma_map_of_distinct, lemma_map_of_dom, map_of};

verus! {

/// The (path, digest) entries of a list of (path, content) files.
pub open spec fn fingerprints_of(files: Seq<(Seq<char>, Seq<u8>)>) -> Seq<(Seq<char>, Seq<char>)> {
    files.map_values(|f: (Seq<char>, Seq<u8>)| (f.0, digest_of(f.1)))
}

/// The table of a list of files: each path mapped to the digest of its content.
pub open spec fn snapshot_of(files: Seq<(Seq<char>, Seq<u8>)>) -> Map<Seq<char>, Seq<char>> {
    map_of(fingerprints_of(files))
}

/// No two files share a path, as in the files of one directory walk.
pub open spec fn paths_distinct(files: Seq<(Seq<char>, Seq<u8>)>) -> bool {
    forall|i: int, j: int| 0 <= i < j < files.len() ==> #[trigger] files[i].0 != #[trigger] files[j].0
}

/// The model of the files handed over by the caller.
pub open spec fn files_view(files: Seq<(String, Vec<u8>)>) -> Seq<(Seq<char>, Seq<u8>)> {
    files.map_values(|f: (String, Vec<u8>)| (f.0@, f.1@))
}

/// Records one file of a walk: its path mapped to the digest of its content.
pub fn record_file(table: &mut FingerprintTable, path: String, content: &[u8])
    requires
        old(table).wf(),
    ensures
        final(table).wf(),
        final(table)@ == old(table)@.insert(path@, digest_of(content@)),
{
    let digest = digest_hex(content);
    table.insert(path, digest);
}

/// The fingerprint table of the given files.
pub fn snapshot_from(files: &Vec<(String, Vec<u8>)>) -> (r: FingerprintTable)
    ensures
        r.wf(),
        r@ == snapshot_of(files_view(files@)),
{
    let ghost fv = files_view(files@);
    let mut table = FingerprintTable::new();
    let mut i: usize = 0;
    while i < files.len()
        invariant
            i <= files.len(),
            fv == files_view(files@),
            table.wf(),
            table@ == snapshot_of(fv.take(i as int)),
        decreases files.len() - i,
    {
        let path = files[i].0.clone();
        record_file(&mut table, path, files[i].1.as_slice());
        proof {
            let next = fingerprints_of(fv.take(i + 1));
            assert(next.drop_last() =~= fingerprints_of(fv.take(i as int)));
            assert(next.last() == (fv[i as int].0, digest_of(fv[i as int].1)));
        }
        i = i + 1;
    }
    assert(fv.take(fv.len() as int) =~= fv);
    table
}

proof fn lemma_snapshot_entries(files: Seq<(Seq<char>, Seq<u8>)>)
    requires
        paths_distinct(files),
    ensures
        keys_distinct(fingerprints_of(files)),
        forall|i: int| 0 <= i < files.len() ==> {
            &&& snapshot_of(files).contains_key(#[trigger] files[i].0)
            &&& snapshot_of(files)[files[i].0] == digest_of(files[i].1)
        },
        forall|p: Seq<char>| #[trigger] snapshot_of(files).contains_key(p) ==> exists|i: int|
            0 <= i < files.len() && (#[trigger] files[i]).0 == p,
{
    let fp = fingerprints_of(files);
    assert forall|i: int, j: int| 0 <= i < j < fp.len() implies #[trigger] fp[i].0
        != #[trigger] fp[j].0 by {
        assert(files[i].0 != files[j].0);
    }
    assert forall|i: int| 0 <= i < files.len() implies {
        &&& snapshot_of(files).contains_key(#[trigger] files[i].0)
        &&& snapshot_of(files)[files[i].0] == digest_of(files[i].1)
    } by {
        lemma_map_of_distinct(fp, i);
    }
    assert forall|p: Seq<char>| #[trigger] snapshot_of(files).contains_key(p) implies exists|i: int|
        0 <= i < files.len() && (#[trigger] files[i]).0 == p by {
        lemma_map_of_dom(fp, p);
        let i = choose|i: int| 0 <= i < fp.len() && (#[trigger] fp[i]).0 == p;
        assert(files[i].0 == p);
    }
}

/// The table of a walk depends only on which files were found with which
/// content, not on the order in which the walk visited them: two walks of an
/// unchanged tree give identical tables.
pub proof fn lemma_snapshot_deterministic(
    first: Seq<(Seq<char>, Seq<u8>)>,
    second: Seq<(Seq<char>, Seq<u8>)>,
)
    requires
        paths_distinct(first),
        paths_distinct(second),
        first.to_set() == second.to_set(),
    ensures
        snapshot_of(first) == snapshot_of(second),
{
    lemma_snapshot_entries(first);
    lemma_snapshot_entries(second);
    let a = snapshot_of(first);
    let b = snapshot_of(second);
    assert forall|p: Seq<char>| a.contains_key(p) implies b.contains_key(p) && b[p] == a[p] by {
        let i = choose|i: int| 0 <= i < first.len() && (#[trigger] first[i]).0 == p;
        assert(first.to_set().contains(first[i]));
        assert(second.to_set().contains(first[i]));
        let j = choose|j: int| 0 <= j < second.len() && second[j] == first[i];
        assert(second[j].0 == p);
    }
    assert forall|p: Seq<char>| b.contains_key(p) implies a.contains_key(p) by {
        let j = choose|j: int| 0 <= j < second.len() && (#[trigger] second[j]).0 == p;
        assert(second.to_set().contains(second[j]));
        assert(first.to_set().contains(second[j]));
        let i = choose|i: int| 0 <= i < first.len() && first[i] == second[j];
        assert(first[i].0 == p);
    }
    assert(a =~= b);
}

/// Changing the content of one file changes the table at that file's path
/// alone, where it records the digest of the new content.
pub proof fn lemma_content_sensitivity(
    files: Seq<(Seq<char>, Seq<u8>)>,
    i: int,
    content: Seq<u8>,
)
    requires
        paths_distinct(files),
        0 <= i < files.len(),
    ensures
        snapshot_of(files.update(i, (files[i].0, content))) == snapshot_of(files).insert(
            files[i].0,
            digest_of(content),
        ),
{
    let changed = files.update(i, (files[i].0, content));
    assert(paths_distinct(changed)) by {
        assert forall|a: int, b: int| 0 <= a < b < changed.len() implies #[trigger] changed[a].0
            != #[trigger] changed[b].0 by {
            assert(files[a].0 != files[b].0);
        }
    }
    lemma_snapshot_entries(files);
    lemma_snapshot_entries(changed);
    let a = snapshot_of(changed);
    let b = snapshot_of(files).insert(files[i].0, digest_of(content));
    assert(changed[i].0 == files[i].0);
    assert forall|p: Seq<char>| a.contains_key(p) implies b.contains_key(p) && b[p] == a[p] by {
        let k = choose|k: int| 0 <= k < changed.len() && (#[trigger] changed[k]).0 == p;
        if k != i {
            assert(files[k] == changed[k]);
            assert(files[k].0 != files[i].0);
        }
    }
    assert forall|p: Seq<char>| b.contains_key(p) implies a.contains_key(p) by {
        if p != files[i].0 {
            let k = choose|k: int| 0 <= k < files.len() && (#[trigger] files[k]).0 == p;
            assert(changed[k] == files[k]);
        }
    }
    assert(a =~= b);
}

/// Where the SHA-256 digests of the old and new content differ, the changed
/// file's entry differs too, while every other entry stays as it was.
pub proof fn lemma_content_change_visible(
    files: Seq<(Seq<char>, Seq<u8>)>,
    i: int,
    content: Seq<u8>,
)
    requires
        paths_distinct(files),
        0 <= i < files.len(),
        sha256_of(content) != sha256_of(files[i].1),
    ensures
        snapshot_of(files.update(i, (files[i].0, content)))[files[i].0] != snapshot_of(files)[files[i].0],
        forall|p: Seq<char>| p != files[i].0 ==> (snapshot_of(files.update(i, (files[i].0, content))).contains_key(p)
            == snapshot_of(files).contains_key(p)),
        forall|p: Seq<char>| #[trigger] snapshot_of(files).contains_key(p) && p != files[i].0
            ==> snapshot_of(files.update(i, (files[i].0, content)))[p] == snapshot_of(files)[p],
{
    lemma_content_sensitivity(files, i, content);
    lemma_snapshot_entries(files);
    lemma_digest_distinguishes(content, files[i].1);
}

} // verus!

