//! The fingerprint table: each file path mapped to the hex digest of its content.
use vstd::prelude::*;

verus! {

/// The mapping that a sequence of (path, digest) entries denotes: entries are
/// applied in order, so a later entry for a path replaces an earlier one.
pub open spec fn map_of(entries: Seq<(Seq<char>, Seq<char>)>) -> Map<Seq<char>, Seq<char>>
    decreases entries.len(),
{
    if entries.len() == 0 {
        Map::empty()
    } else {
        map_of(entries.drop_last()).insert(entries.last().0, entries.last().1)
    }
}

/// No two entries share a path.
pub open spec fn keys_distinct(entries: Seq<(Seq<char>, Seq<char>)>) -> bool {
    forall|i: int, j: int|
        0 <= i < j < entries.len() ==> #[trigger] entries[i].0 != #[trigger] entries[j].0
}

/// A path has an entry in the mapping exactly when some entry records it.
pub proof fn lemma_map_of_dom(entries: Seq<(Seq<char>, Seq<char>)>, p: Seq<char>)
    ensures
        map_of(entries).contains_key(p) <==> exists|i: int|
            0 <= i < entries.len() && (#[trigger] entries[i]).0 == p,
    decreases entries.len(),
{
    if entries.len() > 0 {
        let prefix = entries.drop_last();
        lemma_map_of_dom(prefix, p);
        if map_of(entries).contains_key(p) && p != entries.last().0 {
            let i = choose|i: int| 0 <= i < prefix.len() && (#[trigger] prefix[i]).0 == p;
            assert(entries[i] == prefix[i]);
        }
        if exists|i: int| 0 <= i < entries.len() && (#[trigger] entries[i]).0 == p {
            let i = choose|i: int| 0 <= i < entries.len() && (#[trigger] entries[i]).0 == p;
            if i < entries.len() - 1 {
                assert(prefix[i] == entries[i]);
            }
        }
    }
}

/// With distinct paths, each entry's digest is what the mapping holds for its path.
pub proof fn lemma_map_of_distinct(entries: Seq<(Seq<char>, Seq<char>)>, i: int)
    requires
        keys_distinct(entries),
        0 <= i < entries.len(),
    ensures
        map_of(entries).contains_key(entries[i].0),
        map_of(entries)[entries[i].0] == entries[i].1,
    decreases entries.len(),
{
    if i < entries.len() - 1 {
        let prefix = entries.drop_last();
        assert(prefix[i] == entries[i]);
        assert(entries[i].0 != entries[entries.len() - 1].0);
        lemma_map_of_distinct(prefix, i);
    }
}

/// `a` and `b` agree before position `k`, and there `a` is the first to end
/// or holds the smaller character.
pub open spec fn path_lt_at(a: Seq<char>, b: Seq<char>, k: int) -> bool {
    &&& 0 <= k <= a.len()
    &&& k <= b.len()
    &&& forall|j: int| 0 <= j < k ==> a[j] == b[j]
    &&& (k == a.len() && k < b.len()) || (k < a.len() && k < b.len() && (a[k] as u32) < (
    b[k] as u32))
}

/// `a` comes strictly before `b` in the lexicographic order of characters.
pub open spec fn path_lt(a: Seq<char>, b: Seq<char>) -> bool {
    exists|k: int| #[trigger] path_lt_at(a, b, k)
}

/// Paths strictly increase along the entries.
pub open spec fn keys_sorted(entries: Seq<(Seq<char>, Seq<char>)>) -> bool {
    forall|i: int, j: int| 0 <= i < j < entries.len() ==> path_lt(entries[i].0, entries[j].0)
}

/// How one path is ordered against another.
#[derive(Debug, Clone, Copy, PartialEq, Eq, Structural)]
pub enum PathOrder {
    Less,
    Equal,
    Greater,
}

/// Compares two paths character by character.
pub fn compare_paths(a: &str, b: &str) -> (r: PathOrder)
    ensures
        (r == PathOrder::Less) == path_lt(a@, b@),
        (r == PathOrder::Equal) == (a@ == b@),
        (r == PathOrder::Greater) == path_lt(b@, a@),
{
    let n = a.unicode_len();
    let m = b.unicode_len();
    let mut i: usize = 0;
    while i < n && i < m
        invariant
            i <= n,
            i <= m,
            n == a@.len(),
            m == b@.len(),
            forall|j: int| 0 <= j < i ==> a@[j] == b@[j],
        decreases n - i,
    {
        let x = a.get_char(i);
        let y = b.get_char(i);
        if x != y {
            proof {
                assert forall|k: int| !(path_lt_at(a@, b@, k) && k != i) by {
                    if path_lt_at(a@, b@, k) && k > i {
                        assert(a@[i as int] == b@[i as int]);
                    }
                }
                assert forall|k: int| !(path_lt_at(b@, a@, k) && k != i) by {
                    if path_lt_at(b@, a@, k) && k > i {
                        assert(b@[i as int] == a@[i as int]);
                    }
                }
                assert(a@[i as int] != b@[i as int]);
            }
            if (x as u32) < (y as u32) {
                assert(path_lt_at(a@, b@, i as int));
                return PathOrder::Less;
            } else {
                assert(path_lt_at(b@, a@, i as int));
                return PathOrder::Greater;
            }
        }
        i = i + 1;
    }
    if i == n && i == m {
        assert(a@ =~= b@);
        return PathOrder::Equal;
    }
    proof {
        assert forall|k: int| !(path_lt_at(a@, b@, k) && k != i) by {}
        assert forall|k: int| !(path_lt_at(b@, a@, k) && k != i) by {}
    }
    if i == n {
        assert(path_lt_at(a@, b@, i as int));
        assert(a@.len() != b@.len());
        PathOrder::Less
    } else {
        assert(path_lt_at(b@, a@, i as int));
        assert(a@.len() != b@.len());
        PathOrder::Greater
    }
}

/// No path comes before itself.
pub proof fn lemma_path_lt_irreflexive(a: Seq<char>)
    ensures
        !path_lt(a, a),
{
    assert forall|k: int| !path_lt_at(a, a, k) by {}
}

/// The order of paths is transitive.
pub proof fn lemma_path_lt_transitive(a: Seq<char>, b: Seq<char>, c: Seq<char>)
    requires
        path_lt(a, b),
        path_lt(b, c),
    ensures
        path_lt(a, c),
{
    let k1 = choose|k: int| #[trigger] path_lt_at(a, b, k);
    let k2 = choose|k: int| #[trigger] path_lt_at(b, c, k);
    let k = if k1 < k2 { k1 } else { k2 };
    assert forall|j: int| 0 <= j < k implies a[j] == c[j] by {
        assert(a[j] == b[j]);
        assert(b[j] == c[j]);
    }
    if k1 < k2 {
        assert(b[k1] == c[k1]);
    } else if k2 < k1 {
        assert(a[k2] == b[k2]);
    }
    assert(path_lt_at(a, c, k));
}

/// Sorted entries have distinct paths.
pub proof fn lemma_sorted_distinct(entries: Seq<(Seq<char>, Seq<char>)>)
    requires
        keys_sorted(entries),
    ensures
        keys_distinct(entries),
{
    assert forall|i: int, j: int| 0 <= i < j < entries.len() implies #[trigger] entries[i].0
        != #[trigger] entries[j].0 by {
        lemma_path_lt_irreflexive(entries[i].0);
    }
}

/// The model of (key, value) string pairs.
pub open spec fn pairs_view(v: Seq<(String, String)>) -> Seq<(Seq<char>, Seq<char>)> {
    v.map_values(|e: (String, String)| (e.0@, e.1@))
}

/// A table of file fingerprints, keyed by path.
pub struct FingerprintTable {
    entries: Vec<(String, String)>,
}

impl View for FingerprintTable {
    type V = Map<Seq<char>, Seq<char>>;

    open spec fn view(&self) -> Map<Seq<char>, Seq<char>> {
        map_of(self.entries_view())
    }
}

impl FingerprintTable {
    /// The entries in increasing order of path.
    pub closed spec fn entries_view(&self) -> Seq<(Seq<char>, Seq<char>)> {
        pairs_view(self.entries@)
    }

    /// Well-formed: paths strictly increase along the entries, so no two
    /// entries share a path.
    pub open spec fn wf(&self) -> bool {
        keys_sorted(self.entries_view()) && keys_distinct(self.entries_view())
    }

    pub fn new() -> (r: Self)
        ensures
            r.wf(),
            r@ == Map::<Seq<char>, Seq<char>>::empty(),
            r.entries_view().len() == 0,
    {
        let r = FingerprintTable { entries: Vec::new() };
        assert(r.entries_view() =~= Seq::<(Seq<char>, Seq<char>)>::empty());
        r
    }

    /// The number of entries.
    pub fn len(&self) -> (r: usize)
        ensures
            r == self.entries_view().len(),
    {
        self.entries.len()
    }

    /// The path of the entry at position `i`.
    pub fn path_at(&self, i: usize) -> (r: &String)
        requires
            i < self.entries_view().len(),
        ensures
            r@ == self.entries_view()[i as int].0,
    {
        &self.entries[i].0
    }

    /// The digest of the entry at position `i`.
    pub fn digest_at(&self, i: usize) -> (r: &String)
        requires
            i < self.entries_view().len(),
        ensures
            r@ == self.entries_view()[i as int].1,
    {
        &self.entries[i].1
    }

    /// A copy of the entries, in increasing order of path.
    pub fn entries_list(&self) -> (r: Vec<(String, String)>)
        ensures
            pairs_view(r@) == self.entries_view(),
    {
        let mut out: Vec<(String, String)> = Vec::new();
        let mut i: usize = 0;
        while i < self.entries.len()
            invariant
                i <= self.entries.len(),
                out@.len() == i,
                pairs_view(out@) == self.entries_view().take(
                    i as int,
                ),
            decreases self.entries.len() - i,
        {
            let path = self.entries[i].0.clone();
            let digest = self.entries[i].1.clone();
            let ghost before = out@;
            proof {
                assert(path@ == self.entries_view()[i as int].0);
                assert(digest@ == self.entries_view()[i as int].1);
            }
            out.push((path, digest));
            assert(out@ == before.push((path, digest)));
            assert(pairs_view(out@) =~= self.entries_view().take(
                i + 1,
            ));
            i = i + 1;
        }
        assert(self.entries_view().take(i as int) =~= self.entries_view());
        out
    }

    /// Where `path` stands among the sorted entries: `Ok` with its position,
    /// or `Err` with the position where it would be inserted.
    fn search(&self, path: &String) -> (r: Result<usize, usize>)
        requires
            self.wf(),
        ensures
            match r {
                Ok(i) => i < self.entries_view().len() && self.entries_view()[i as int].0 == path@,
                Err(lo) => {
                    &&& lo <= self.entries_view().len()
                    &&& forall|j: int| 0 <= j < lo ==> path_lt(self.entries_view()[j].0, path@)
                    &&& forall|j: int|
                        lo <= j < self.entries_view().len() ==> path_lt(
                            path@,
                            self.entries_view()[j].0,
                        )
                },
            },
    {
        let ghost ev = self.entries_view();
        let mut lo: usize = 0;
        let mut hi: usize = self.entries.len();
        while lo < hi
            invariant
                ev == self.entries_view(),
                lo <= hi <= ev.len(),
                forall|j: int| 0 <= j < lo ==> path_lt(ev[j].0, path@),
                forall|j: int| hi <= j < ev.len() ==> path_lt(path@, ev[j].0),
                keys_sorted(ev),
            decreases hi - lo,
        {
            let mid = lo + (hi - lo) / 2;
            match compare_paths(self.entries[mid].0.as_str(), path.as_str()) {
                PathOrder::Equal => {
                    return Ok(mid);
                },
                PathOrder::Less => {
                    assert forall|j: int| 0 <= j < mid + 1 implies path_lt(ev[j].0, path@) by {
                        if j < mid {
                            assert(path_lt(ev[j].0, ev[mid as int].0));
                            lemma_path_lt_transitive(ev[j].0, ev[mid as int].0, path@);
                        }
                    }
                    lo = mid + 1;
                },
                PathOrder::Greater => {
                    assert forall|j: int| mid <= j < ev.len() implies path_lt(path@, ev[j].0) by {
                        if j > mid {
                            assert(path_lt(ev[mid as int].0, ev[j].0));
                            lemma_path_lt_transitive(path@, ev[mid as int].0, ev[j].0);
                        }
                    }
                    hi = mid;
                },
            }
        }
        Err(lo)
    }

    /// The position of the entry for `path`, if there is one.
    pub fn position_of(&self, path: &String) -> (r: Option<usize>)
        requires
            self.wf(),
        ensures
            match r {
                Some(i) => i < self.entries_view().len() && self.entries_view()[i as int].0
                    == path@,
                None => forall|i: int|
                    0 <= i < self.entries_view().len() ==> (#[trigger] self.entries_view()[i]).0
                        != path@,
            },
    {
        match self.search(path) {
            Ok(i) => Some(i),
            Err(lo) => {
                proof {
                    lemma_path_lt_irreflexive(path@);
                }
                None
            },
        }
    }

    /// The digest recorded for `path`, if any.
    pub fn get(&self, path: &String) -> (r: Option<&String>)
        requires
            self.wf(),
        ensures
            match r {
                Some(d) => self@.contains_key(path@) && self@[path@] == d@,
                None => !self@.contains_key(path@),
            },
    {
        proof {
            lemma_map_of_dom(self.entries_view(), path@);
        }
        match self.position_of(path) {
            Some(i) => {
                proof {
                    lemma_map_of_distinct(self.entries_view(), i as int);
                }
                Some(&self.entries[i].1)
            },
            None => None,
        }
    }

    /// Whether `path` has an entry.
    pub fn contains_key(&self, path: &String) -> (r: bool)
        requires
            self.wf(),
        ensures
            r == self@.contains_key(path@),
    {
        proof {
            lemma_map_of_dom(self.entries_view(), path@);
        }
        self.position_of(path).is_some()
    }

    /// Records `digest` for `path`, replacing an earlier digest of that path.
    pub fn insert(&mut self, path: String, digest: String)
        requires
            old(self).wf(),
        ensures
            final(self).wf(),
            final(self)@ == old(self)@.insert(path@, digest@),
    {
        let ghost before = self.entries_view();
        let ghost p = path@;
        let ghost d = digest@;
        match self.search(&path) {
            Ok(i) => {
                self.entries.set(i, (path, digest));
                let ghost after = self.entries_view();
                assert(after =~= before.update(i as int, (p, d)));
                assert(keys_sorted(after)) by {
                    assert forall|a: int, b: int| 0 <= a < b < after.len() implies path_lt(
                        after[a].0,
                        after[b].0,
                    ) by {
                        assert(after[a].0 == before[a].0);
                        assert(after[b].0 == before[b].0);
                    }
                }
                proof {
                    lemma_sorted_distinct(after);
                }
                assert forall|q: Seq<char>| #[trigger] self@.contains_key(q)
                    == old(self)@.insert(p, d).contains_key(q) by {
                    lemma_map_of_dom(after, q);
                    lemma_map_of_dom(before, q);
                    if q == p {
                        assert(after[i as int].0 == q);
                    }
                    if exists|k: int| 0 <= k < before.len() && (#[trigger] before[k]).0 == q {
                        let k = choose|k: int| 0 <= k < before.len() && (#[trigger] before[k]).0 == q;
                        assert(after[k].0 == q);
                    }
                    if exists|k: int| 0 <= k < after.len() && (#[trigger] after[k]).0 == q {
                        let k = choose|k: int| 0 <= k < after.len() && (#[trigger] after[k]).0 == q;
                        assert(before[k].0 == q);
                    }
                }
                assert forall|q: Seq<char>| #[trigger] self@.contains_key(q)
                    implies self@[q] == old(self)@.insert(p, d)[q] by {
                    lemma_map_of_dom(after, q);
                    let k = choose|k: int| 0 <= k < after.len() && (#[trigger] after[k]).0 == q;
                    lemma_map_of_distinct(after, k);
                    if k != i {
                        assert(before[k] == after[k]);
                        lemma_map_of_distinct(before, k);
                    }
                }
                assert(self@ =~= old(self)@.insert(p, d));
            },
            Err(lo) => {
                self.entries.insert(lo, (path, digest));
                let ghost after = self.entries_view();
                assert(after =~= before.insert(lo as int, (p, d)));
                assert(keys_sorted(after)) by {
                    assert forall|a: int, b: int| 0 <= a < b < after.len() implies path_lt(
                        after[a].0,
                        after[b].0,
                    ) by {
                        if b < lo {
                            assert(after[a] == before[a] && after[b] == before[b]);
                        } else if b == lo {
                            assert(after[a] == before[a]);
                        } else if a < lo {
                            assert(after[a] == before[a] && after[b] == before[b - 1]);
                        } else if a == lo {
                            assert(after[b] == before[b - 1]);
                        } else {
                            assert(after[a] == before[a - 1] && after[b] == before[b - 1]);
                        }
                    }
                }
                proof {
                    lemma_sorted_distinct(after);
                }
                assert forall|q: Seq<char>| #[trigger] self@.contains_key(q)
                    == old(self)@.insert(p, d).contains_key(q) by {
                    lemma_map_of_dom(after, q);
                    lemma_map_of_dom(before, q);
                    if q == p {
                        assert(after[lo as int].0 == q);
                    }
                    if exists|k: int| 0 <= k < before.len() && (#[trigger] before[k]).0 == q {
                        let k = choose|k: int| 0 <= k < before.len() && (#[trigger] before[k]).0 == q;
                        if k < lo {
                            assert(after[k].0 == q);
                        } else {
                            assert(after[k + 1].0 == q);
                        }
                    }
                    if exists|k: int| 0 <= k < after.len() && (#[trigger] after[k]).0 == q {
                        let k = choose|k: int| 0 <= k < after.len() && (#[trigger] after[k]).0 == q;
                        if k < lo {
                            assert(before[k].0 == q);
                        } else if k > lo {
                            assert(before[k - 1].0 == q);
                        }
                    }
                }
                assert forall|q: Seq<char>| #[trigger] self@.contains_key(q)
                    implies self@[q] == old(self)@.insert(p, d)[q] by {
                    lemma_map_of_dom(after, q);
                    let k = choose|k: int| 0 <= k < after.len() && (#[trigger] after[k]).0 == q;
                    lemma_map_of_distinct(after, k);
                    if k < lo {
                        assert(before[k] == after[k]);
                        lemma_map_of_distinct(before, k);
                    } else if k > lo {
                        assert(before[k - 1] == after[k]);
                        lemma_map_of_distinct(before, k - 1);
                    }
                }
                assert(self@ =~= old(self)@.insert(p, d));
            },
        }
    }
}

} // verus!
