//! The difference between a current fingerprint table and a baseline table.
use vstd::prelude::*;
use crate::table::{FingerprintTable, lemma_map_of_dom, lemma_map_of_distinct};

verus! {

/// The paths that a list of strings holds.
pub open spec fn views(v: Seq<String>) -> Seq<Seq<char>> {
    v.map_values(|s: String| s@)
}

/// `p` is recorded in both tables, with different digests.
pub open spec fn is_modified(
    current: Map<Seq<char>, Seq<char>>,
    baseline: Map<Seq<char>, Seq<char>>,
    p: Seq<char>,
) -> bool {
    current.contains_key(p) && baseline.contains_key(p) && current[p] != baseline[p]
}

/// `p` is recorded in the current table only.
pub open spec fn is_new(
    current: Map<Seq<char>, Seq<char>>,
    baseline: Map<Seq<char>, Seq<char>>,
    p: Seq<char>,
) -> bool {
    current.contains_key(p) && !baseline.contains_key(p)
}

/// `p` is recorded in the baseline only.
pub open spec fn is_deleted(
    current: Map<Seq<char>, Seq<char>>,
    baseline: Map<Seq<char>, Seq<char>>,
    p: Seq<char>,
) -> bool {
    baseline.contains_key(p) && !current.contains_key(p)
}

/// `p` is recorded in both tables, with the same digest.
pub open spec fn is_unchanged(
    current: Map<Seq<char>, Seq<char>>,
    baseline: Map<Seq<char>, Seq<char>>,
    p: Seq<char>,
) -> bool {
    current.contains_key(p) && baseline.contains_key(p) && current[p] == baseline[p]
}

/// Every path that falls under one of the categories of a difference falls
/// under exactly one of them: unchanged, modified, new or deleted, and those
/// are exactly the paths of either table.
pub proof fn lemma_diff_partition(
    current: Map<Seq<char>, Seq<char>>,
    baseline: Map<Seq<char>, Seq<char>>,
    p: Seq<char>,
)
    ensures
        !(is_modified(current, baseline, p) && is_new(current, baseline, p)),
        !(is_modified(current, baseline, p) && is_deleted(current, baseline, p)),
        !(is_new(current, baseline, p) && is_deleted(current, baseline, p)),
        !(is_unchanged(current, baseline, p) && (is_modified(current, baseline, p) || is_new(
            current,
            baseline,
            p,
        ) || is_deleted(current, baseline, p))),
        (current.contains_key(p) || baseline.contains_key(p)) <==> (is_unchanged(
            current,
            baseline,
            p,
        ) || is_modified(current, baseline, p) || is_new(current, baseline, p) || is_deleted(
            current,
            baseline,
            p,
        )),
{
}

/// Appending `x` adds `x` and nothing else.
proof fn lemma_push_contains<A>(s: Seq<A>, x: A, q: A)
    ensures
        s.push(x).contains(q) <==> (s.contains(q) || q == x),
{
    let pushed = s.push(x);
    if pushed.contains(q) && q != x {
        let k = choose|k: int| 0 <= k < pushed.len() && pushed[k] == q;
        assert(s[k] == q);
    }
    if s.contains(q) {
        let k = choose|k: int| 0 <= k < s.len() && s[k] == q;
        assert(pushed[k] == q);
    }
    assert(pushed[s.len() as int] == x);
}

/// Classifies every path of the two tables: the first list holds the modified
/// paths, the second the new ones and the third the deleted ones. Each list
/// names a path at most once; unchanged paths appear in none of them.
pub fn compare_hashes(current: &FingerprintTable, baseline: &FingerprintTable) -> (r: (
    Vec<String>,
    Vec<String>,
    Vec<String>,
))
    requires
        current.wf(),
        baseline.wf(),
    ensures
        forall|p: Seq<char>| #[trigger]
            views(r.0@).contains(p) <==> is_modified(current@, baseline@, p),
        forall|p: Seq<char>| #[trigger]
            views(r.1@).contains(p) <==> is_new(current@, baseline@, p),
        forall|p: Seq<char>| #[trigger]
            views(r.2@).contains(p) <==> is_deleted(current@, baseline@, p),
        views(r.0@).no_duplicates(),
        views(r.1@).no_duplicates(),
        views(r.2@).no_duplicates(),
{
    let mut modified: Vec<String> = Vec::new();
    let mut new_files: Vec<String> = Vec::new();
    let mut deleted: Vec<String> = Vec::new();
    let ghost cur = current.entries_view();
    let ghost base = baseline.entries_view();
    let n = current.len();
    let mut i: usize = 0;
    while i < n
        invariant
            n == cur.len(),
            i <= n,
            cur == current.entries_view(),
            current.wf(),
            baseline.wf(),
            forall|p: Seq<char>| #[trigger]
                views(modified@).contains(p) <==> (exists|j: int|
                    0 <= j < i && (#[trigger] cur[j]).0 == p) && is_modified(
                    current@,
                    baseline@,
                    p,
                ),
            forall|p: Seq<char>| #[trigger]
                views(new_files@).contains(p) <==> (exists|j: int|
                    0 <= j < i && (#[trigger] cur[j]).0 == p) && is_new(current@, baseline@, p),
            views(modified@).no_duplicates(),
            views(new_files@).no_duplicates(),
        decreases n - i,
    {
        let path = current.path_at(i);
        let digest = current.digest_at(i);
        let ghost p = path@;
        proof {
            lemma_map_of_distinct(cur, i as int);
            assert forall|j: int| 0 <= j < i implies (#[trigger] cur[j]).0 != p by {}
        }
        let ghost old_modified = views(modified@);
        assert(forall|q: Seq<char>| #[trigger] old_modified.contains(q) <==> (exists|j: int|
            0 <= j < i && (#[trigger] cur[j]).0 == q) && is_modified(current@, baseline@, q));
        let ghost old_new = views(new_files@);
        assert(forall|q: Seq<char>| #[trigger] old_new.contains(q) <==> (exists|j: int|
            0 <= j < i && (#[trigger] cur[j]).0 == q) && is_new(current@, baseline@, q));
        assert(!old_modified.contains(p));
        assert(!old_new.contains(p));
        match baseline.get(path) {
            Some(d) => {
                if *d != *digest {
                    modified.push(path.clone());
                    assert(views(modified@) =~= old_modified.push(p));
                }
            },
            None => {
                new_files.push(path.clone());
                assert(views(new_files@) =~= old_new.push(p));
            },
        }
        assert(views(modified@) == if is_modified(current@, baseline@, p) {
            old_modified.push(p)
        } else {
            old_modified
        });
        assert(views(new_files@) == if is_new(current@, baseline@, p) {
            old_new.push(p)
        } else {
            old_new
        });
        proof {
            assert forall|q: Seq<char>| #[trigger] views(modified@).contains(q) <==> (exists|j: int|
                0 <= j < i + 1 && (#[trigger] cur[j]).0 == q) && is_modified(
                current@,
                baseline@,
                q,
            ) by {
                if is_modified(current@, baseline@, p) {
                    lemma_push_contains(old_modified, p, q);
                }
                if q == p {
                    assert(cur[i as int].0 == q);
                } else if old_modified.contains(q) {
                    let j = choose|j: int| 0 <= j < i && (#[trigger] cur[j]).0 == q;
                    assert(cur[j].0 == q);
                } else if exists|j: int| 0 <= j < i + 1 && (#[trigger] cur[j]).0 == q {
                    let j = choose|j: int| 0 <= j < i + 1 && (#[trigger] cur[j]).0 == q;
                    assert(j < i);
                }
            }
            assert forall|q: Seq<char>| #[trigger] views(new_files@).contains(q) <==> (exists|j: int|
                0 <= j < i + 1 && (#[trigger] cur[j]).0 == q) && is_new(current@, baseline@, q) by {
                if is_new(current@, baseline@, p) {
                    lemma_push_contains(old_new, p, q);
                }
                if q == p {
                    assert(cur[i as int].0 == q);
                } else if old_new.contains(q) {
                    let j = choose|j: int| 0 <= j < i && (#[trigger] cur[j]).0 == q;
                    assert(cur[j].0 == q);
                } else if exists|j: int| 0 <= j < i + 1 && (#[trigger] cur[j]).0 == q {
                    let j = choose|j: int| 0 <= j < i + 1 && (#[trigger] cur[j]).0 == q;
                    assert(j < i);
                }
            }
        }
        i = i + 1;
    }
    proof {
        assert forall|p: Seq<char>| #[trigger] current@.contains_key(p) implies exists|j: int|
            0 <= j < n && (#[trigger] cur[j]).0 == p by {
            lemma_map_of_dom(cur, p);
        }
    }
    let m = baseline.len();
    let mut k: usize = 0;
    while k < m
        invariant
            m == base.len(),
            k <= m,
            base == baseline.entries_view(),
            baseline.wf(),
            current.wf(),
            forall|p: Seq<char>| #[trigger]
                views(deleted@).contains(p) <==> (exists|j: int|
                    0 <= j < k && (#[trigger] base[j]).0 == p) && is_deleted(
                    current@,
                    baseline@,
                    p,
                ),
            views(deleted@).no_duplicates(),
        decreases m - k,
    {
        let path = baseline.path_at(k);
        let ghost p = path@;
        proof {
            lemma_map_of_distinct(base, k as int);
            assert forall|j: int| 0 <= j < k implies (#[trigger] base[j]).0 != p by {}
        }
        let ghost old_deleted = views(deleted@);
        assert(forall|q: Seq<char>| #[trigger] old_deleted.contains(q) <==> (exists|j: int|
            0 <= j < k && (#[trigger] base[j]).0 == q) && is_deleted(current@, baseline@, q));
        assert(!old_deleted.contains(p));
        if !current.contains_key(path) {
            deleted.push(path.clone());
            assert(views(deleted@) =~= old_deleted.push(p));
        }
        assert(views(deleted@) == if is_deleted(current@, baseline@, p) {
            old_deleted.push(p)
        } else {
            old_deleted
        });
        proof {
            assert forall|q: Seq<char>| #[trigger] views(deleted@).contains(q) <==> (exists|j: int|
                0 <= j < k + 1 && (#[trigger] base[j]).0 == q) && is_deleted(
                current@,
                baseline@,
                q,
            ) by {
                if is_deleted(current@, baseline@, p) {
                    lemma_push_contains(old_deleted, p, q);
                }
                if q == p {
                    assert(base[k as int].0 == q);
                } else if old_deleted.contains(q) {
                    let j = choose|j: int| 0 <= j < k && (#[trigger] base[j]).0 == q;
                    assert(base[j].0 == q);
                } else if exists|j: int| 0 <= j < k + 1 && (#[trigger] base[j]).0 == q {
                    let j = choose|j: int| 0 <= j < k + 1 && (#[trigger] base[j]).0 == q;
                    assert(j < k);
                }
            }
        }
        k = k + 1;
    }
    proof {
        assert forall|p: Seq<char>| #[trigger] baseline@.contains_key(p) implies exists|j: int|
            0 <= j < m && (#[trigger] base[j]).0 == p by {
            lemma_map_of_dom(base, p);
        }
    }
    (modified, new_files, deleted)
}

} // verus!
