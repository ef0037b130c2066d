//! The high-score ranking engine: a best-score-per-name store, a dense rank
//! table recomputed after every change, and the JSON document under which the
//! store is persisted and reloaded.

use vstd::prelude::*;
use vstd::seq_lib::seq_to_set_is_finite;
use crate::protocol::{HighScore, HighScoreRank};

verus! {

broadcast use vstd::set::group_set_axioms, seq_to_set_is_finite;

/// No name occurs twice in the listing.
pub open spec fn names_unique(entries: Seq<(String, usize)>) -> bool {
    forall|i: int, j: int|
        0 <= i < j < entries.len() ==> (#[trigger] entries[i]).0@ != (#[trigger] entries[j]).0@
}

/// Some row carries this name.
pub open spec fn has_name(entries: Seq<(String, usize)>, name: Seq<char>) -> bool {
    exists|i: int| 0 <= i < entries.len() && (#[trigger] entries[i]).0@ == name
}

/// The row index carrying `name`; meaningful only when `has_name` holds and
/// unambiguous whenever `names_unique` holds.
pub open spec fn name_index(entries: Seq<(String, usize)>, name: Seq<char>) -> int {
    choose|i: int| 0 <= i < entries.len() && (#[trigger] entries[i]).0@ == name
}

/// The score stored under `name`, if any.
pub open spec fn lookup(entries: Seq<(String, usize)>, name: Seq<char>) -> Option<usize> {
    if has_name(entries, name) {
        Some(entries[name_index(entries, name)].1)
    } else {
        None
    }
}

/// The listing after an insert: the named row is raised to the maximum of its
/// stored and the offered score, or a fresh row is appended.
pub open spec fn upsert(entries: Seq<(String, usize)>, name: String, score: usize) -> Seq<
    (String, usize),
> {
    if has_name(entries, name@) {
        let i = name_index(entries, name@);
        entries.update(
            i,
            (entries[i].0, if entries[i].1 >= score { entries[i].1 } else { score }),
        )
    } else {
        entries.push((name, score))
    }
}

/// The listing reached by inserting every row of `list`, in order, into an
/// empty store.
pub open spec fn replay(list: Seq<(String, usize)>) -> Seq<(String, usize)>
    decreases list.len(),
{
    if list.len() == 0 {
        Seq::empty()
    } else {
        upsert(replay(list.drop_last()), list.last().0, list.last().1)
    }
}

/// The scores column of a listing.
pub open spec fn scores_of(entries: Seq<(String, usize)>) -> Seq<usize> {
    entries.map_values(|p: (String, usize)| p.1)
}

/// The distinct score values of a listing.
pub open spec fn val_set(entries: Seq<(String, usize)>) -> Set<usize> {
    scores_of(entries).to_set()
}

/// The distinct score values strictly above `s`.
pub open spec fn scores_above(entries: Seq<(String, usize)>, s: usize) -> Set<usize> {
    val_set(entries).filter(|v: usize| v > s)
}

/// Dense rank of a score: one more than the number of distinct stored scores
/// strictly above it, so ties share a rank and no rank is skipped.
pub open spec fn dense_rank(entries: Seq<(String, usize)>, s: usize) -> int {
    1 + scores_above(entries, s).len() as int
}

/// What makes a rank table fit its listing: one row per entry, ordered by
/// stored score descending, each carrying the entry's dense rank.
pub open spec fn ranks_ok(entries: Seq<(String, usize)>, ranks: Seq<(String, usize)>) -> bool {
    &&& ranks.len() == entries.len()
    &&& names_unique(ranks)
    &&& forall|n: Seq<char>| has_name(entries, n) ==> has_name(ranks, n)
    &&& forall|i: int|
        0 <= i < ranks.len() ==> lookup(entries, (#[trigger] ranks[i]).0@) is Some
    &&& forall|i: int|
        0 <= i < ranks.len() ==> (#[trigger] ranks[i]).1 == dense_rank(
            entries,
            lookup(entries, ranks[i].0@)->0,
        )
    &&& forall|i: int, j: int|
        0 <= i < j < ranks.len() ==> lookup(entries, (#[trigger] ranks[i]).0@)->0 >= lookup(
            entries,
            (#[trigger] ranks[j]).0@,
        )->0
}

/// The all-time best score per display name, with its derived rank table.
pub struct HighScoreList {
    pub entries: Vec<(String, usize)>,
    pub ranks: Vec<(String, usize)>,
}

impl HighScoreList {
    pub open spec fn wf(self) -> bool {
        names_unique(self.entries@) && ranks_ok(self.entries@, self.ranks@)
    }

    /// An empty store.
    pub fn new() -> (r: HighScoreList)
        ensures
            r.wf(),
            r.entries@.len() == 0,
            r.ranks@.len() == 0,
    {
        HighScoreList { entries: Vec::new(), ranks: Vec::new() }
    }
}

/// A row of the listing is found by `lookup` under its own name.
proof fn lemma_lookup_of_row(entries: Seq<(String, usize)>, row: (String, usize))
    requires
        names_unique(entries),
        entries.contains(row),
    ensures
        has_name(entries, row.0@),
        lookup(entries, row.0@) == Some(row.1),
{
    let k = choose|k: int| 0 <= k < entries.len() && entries[k] == row;
    assert(entries[k].0@ == row.0@);
    assert(has_name(entries, row.0@));
    let m = name_index(entries, row.0@);
    assert(0 <= m < entries.len() && entries[m].0@ == row.0@);
    assert(m == k);
}

/// Every distinct stored score is realized in any listing that holds only
/// rows of `entries` and a row for each of its names.
proof fn lemma_value_realized(
    entries: Seq<(String, usize)>,
    snap: Seq<(String, usize)>,
    v: usize,
)
    requires
        names_unique(entries),
        forall|k: int| 0 <= k < snap.len() ==> entries.contains(#[trigger] snap[k]),
        forall|n: Seq<char>| has_name(entries, n) ==> has_name(snap, n),
        val_set(entries).contains(v),
    ensures
        exists|m: int| 0 <= m < snap.len() && (#[trigger] snap[m]).1 == v,
{
    assert(scores_of(entries).contains(v));
    let k = choose|k: int| 0 <= k < scores_of(entries).len() && scores_of(entries)[k] == v;
    assert(scores_of(entries)[k] == entries[k].1);
    let n = entries[k].0@;
    assert(has_name(entries, n));
    let m = choose|m: int| 0 <= m < snap.len() && (#[trigger] snap[m]).0@ == n;
    assert(entries.contains(snap[m]));
    let k2 = choose|k2: int| 0 <= k2 < entries.len() && entries[k2] == snap[m];
    assert(entries[k2].0@ == n);
    assert(k2 == k);
    assert(snap[m].1 == v);
}

/// A score no distinct stored score exceeds has dense rank 1.
proof fn lemma_dense_rank_top(entries: Seq<(String, usize)>, top: usize)
    requires
        forall|v: usize| val_set(entries).contains(v) ==> v <= top,
    ensures
        dense_rank(entries, top) == 1,
{
    assert(scores_above(entries, top) =~= Set::<usize>::empty());
}

/// Stepping down past a stored score, with no stored score in between,
/// raises the dense rank by exactly one.
proof fn lemma_dense_rank_succ(entries: Seq<(String, usize)>, a: usize, b: usize)
    requires
        b < a,
        val_set(entries).contains(a),
        forall|v: usize| val_set(entries).contains(v) ==> !(b < v < a),
    ensures
        dense_rank(entries, b) == dense_rank(entries, a) + 1,
{
    assert(val_set(entries).finite());
    val_set(entries).lemma_len_filter(|v: usize| v > a);
    assert(scores_above(entries, b) =~= scores_above(entries, a).insert(a));
    assert(!scores_above(entries, a).contains(a));
}

/// The dense rank of each row of a descending, complete, duplicate-free
/// listing of the entries, phrased against its predecessor row.
proof fn lemma_snap_rank_at(entries: Seq<(String, usize)>, snap: Seq<(String, usize)>, j: int)
    requires
        names_unique(entries),
        forall|k: int| 0 <= k < snap.len() ==> entries.contains(#[trigger] snap[k]),
        forall|n: Seq<char>| has_name(entries, n) ==> has_name(snap, n),
        forall|k1: int, k2: int|
            0 <= k1 < k2 < snap.len() ==> (#[trigger] snap[k1]).1 >= (#[trigger] snap[k2]).1,
        0 <= j < snap.len(),
    ensures
        j == 0 ==> dense_rank(entries, snap[0].1) == 1,
        j > 0 && snap[j].1 != snap[j - 1].1 ==> dense_rank(entries, snap[j].1) == dense_rank(
            entries,
            snap[j - 1].1,
        ) + 1,
{
    if j == 0 {
        assert forall|v: usize| val_set(entries).contains(v) implies v <= snap[0].1 by {
            lemma_value_realized(entries, snap, v);
            let m = choose|m: int| 0 <= m < snap.len() && (#[trigger] snap[m]).1 == v;
            assert(m == 0 || snap[0].1 >= snap[m].1);
        }
        lemma_dense_rank_top(entries, snap[0].1);
    } else if snap[j].1 != snap[j - 1].1 {
        let a = snap[j - 1].1;
        let b = snap[j].1;
        assert(b < a);
        let k = choose|k: int| 0 <= k < entries.len() && entries[k] == snap[j - 1];
        assert(scores_of(entries)[k] == entries[k].1);
        assert(scores_of(entries).contains(a));
        assert(val_set(entries).contains(a));
        assert forall|v: usize| val_set(entries).contains(v) implies !(b < v < a) by {
            lemma_value_realized(entries, snap, v);
            let m = choose|m: int| 0 <= m < snap.len() && (#[trigger] snap[m]).1 == v;
            if m <= j - 1 {
                assert(m == j - 1 || snap[m].1 >= snap[j - 1].1);
            } else {
                assert(snap[j].1 >= snap[m].1);
            }
        }
        lemma_dense_rank_succ(entries, a, b);
    }
}

/// A table whose rows carry the names of a descending, complete,
/// duplicate-free listing and their dense ranks fits the entries.
proof fn lemma_ranks_ok_from_snap(
    entries: Seq<(String, usize)>,
    snap: Seq<(String, usize)>,
    ranks: Seq<(String, usize)>,
)
    requires
        names_unique(entries),
        names_unique(snap),
        snap.len() == entries.len(),
        ranks.len() == snap.len(),
        forall|k: int| 0 <= k < snap.len() ==> entries.contains(#[trigger] snap[k]),
        forall|n: Seq<char>| has_name(entries, n) ==> has_name(snap, n),
        forall|k1: int, k2: int|
            0 <= k1 < k2 < snap.len() ==> (#[trigger] snap[k1]).1 >= (#[trigger] snap[k2]).1,
        forall|k: int|
            0 <= k < ranks.len() ==> (#[trigger] ranks[k]).0 == snap[k].0 && ranks[k].1
                == dense_rank(entries, snap[k].1),
    ensures
        ranks_ok(entries, ranks),
{
    assert forall|k: int| 0 <= k < snap.len() implies lookup(entries, (#[trigger] snap[k]).0@)
        == Some(snap[k].1) by {
        lemma_lookup_of_row(entries, snap[k]);
    }
    assert(names_unique(ranks)) by {
        assert(forall|i: int, j: int|
            0 <= i < j < ranks.len() ==> (#[trigger] ranks[i]).0@ == snap[i].0@ && (
            #[trigger] ranks[j]).0@ == snap[j].0@);
    }
    assert forall|n: Seq<char>| has_name(entries, n) implies has_name(ranks, n) by {
        let m = choose|m: int| 0 <= m < snap.len() && (#[trigger] snap[m]).0@ == n;
        assert(ranks[m].0@ == n);
    }
    assert forall|i: int| 0 <= i < ranks.len() implies lookup(entries, (#[trigger] ranks[i]).0@)
        is Some by {
        assert(ranks[i].0 == snap[i].0);
    }
    assert forall|i: int| 0 <= i < ranks.len() implies (#[trigger] ranks[i]).1 == dense_rank(
        entries,
        lookup(entries, ranks[i].0@)->0,
    ) by {
        assert(ranks[i].0 == snap[i].0);
        assert(lookup(entries, snap[i].0@) == Some(snap[i].1));
    }
    assert forall|i: int, j: int| 0 <= i < j < ranks.len() implies lookup(
        entries,
        (#[trigger] ranks[i]).0@,
    )->0 >= lookup(entries, (#[trigger] ranks[j]).0@)->0 by {
        assert(ranks[i].0 == snap[i].0 && ranks[j].0 == snap[j].0);
        assert(lookup(entries, snap[i].0@) == Some(snap[i].1));
        assert(lookup(entries, snap[j].0@) == Some(snap[j].1));
    }
}

impl HighScoreList {
    /// Rebuilds the rank table from the entries: sort by score descending,
    /// then walk the sorted rows handing rank 1 to the first and, to each
    /// later row, its predecessor's rank if the scores tie, one more if not.
    fn recompute_ranks(&mut self)
        requires
            names_unique(old(self).entries@),
        ensures
            final(self).entries == old(self).entries,
            ranks_ok(final(self).entries@, final(self).ranks@),
    {
        let ghost entries = self.entries@;
        // copy the entries into a working listing
        let mut rows: Vec<(String, usize)> = Vec::new();
        let mut i: usize = 0;
        while i < self.entries.len()
            invariant
                self.entries@ == entries,
                i <= entries.len(),
                rows@ =~= entries.take(i as int),
            decreases entries.len() - i,
        {
            let name = self.entries[i].0.clone();
            let score = self.entries[i].1;
            rows.push((name, score));
            proof {
                assert((name, score) == entries[i as int]);
                assert(rows@ =~= entries.take(i as int + 1));
            }
            i += 1;
        }
        proof {
            assert(rows@ =~= entries);
        }
        // selection sort, descending by score
        let mut sorted: Vec<(String, usize)> = Vec::new();
        while rows.len() > 0
            invariant
                self.entries@ == entries,
                names_unique(entries),
                sorted@.len() + rows@.len() == entries.len(),
                forall|k: int| 0 <= k < sorted@.len() ==> entries.contains(#[trigger] sorted@[k]),
                forall|k: int| 0 <= k < rows@.len() ==> entries.contains(#[trigger] rows@[k]),
                forall|n: Seq<char>|
                    has_name(entries, n) ==> has_name(sorted@, n) || has_name(rows@, n),
                names_unique(sorted@),
                names_unique(rows@),
                forall|k1: int, k2: int|
                    0 <= k1 < sorted@.len() && 0 <= k2 < rows@.len() ==> (
                    #[trigger] sorted@[k1]).0@ != (#[trigger] rows@[k2]).0@,
                forall|k1: int, k2: int|
                    0 <= k1 < k2 < sorted@.len() ==> (#[trigger] sorted@[k1]).1 >= (
                    #[trigger] sorted@[k2]).1,
                forall|k1: int, k2: int|
                    0 <= k1 < sorted@.len() && 0 <= k2 < rows@.len() ==> (
                    #[trigger] sorted@[k1]).1 >= (#[trigger] rows@[k2]).1,
            decreases rows@.len(),
        {
            let mut imax: usize = 0;
            let mut j: usize = 1;
            while j < rows.len()
                invariant
                    imax < j,
                    j <= rows@.len(),
                    rows@.len() > 0,
                    forall|k: int| 0 <= k < j ==> (#[trigger] rows@[k]).1 <= rows@[imax as int].1,
                decreases rows@.len() - j,
            {
                if rows[j].1 > rows[imax].1 {
                    imax = j;
                }
                j += 1;
            }
            let ghost rows_old = rows@;
            let ghost sorted_old = sorted@;
            let picked = rows.remove(imax);
            sorted.push(picked);
            proof {
                assert(picked == rows_old[imax as int]);
                assert(rows@ =~= rows_old.remove(imax as int));
                assert(forall|k: int| 0 <= k < imax ==> rows@[k] == rows_old[k]);
                assert(forall|k: int|
                    imax <= k < rows@.len() ==> rows@[k] == rows_old[k + 1]);
                assert forall|n: Seq<char>|
                    has_name(entries, n) implies has_name(sorted@, n) || has_name(rows@, n) by {
                    if has_name(sorted_old, n) {
                        let m = choose|m: int|
                            0 <= m < sorted_old.len() && (#[trigger] sorted_old[m]).0@ == n;
                        assert(sorted@[m].0@ == n);
                    } else {
                        let m = choose|m: int|
                            0 <= m < rows_old.len() && (#[trigger] rows_old[m]).0@ == n;
                        if m == imax {
                            assert(sorted@[sorted@.len() - 1].0@ == n);
                        } else if m < imax {
                            assert(rows@[m].0@ == n);
                        } else {
                            assert(rows@[m - 1].0@ == n);
                        }
                    }
                }
            }
        }
        // hand out the dense ranks over the sorted listing
        let ghost snap = sorted@;
        proof {
            assert(forall|n: Seq<char>| has_name(entries, n) ==> has_name(snap, n));
        }
        let mut rank: usize = 1;
        let mut prev: usize = 0;
        let mut j: usize = 0;
        while j < sorted.len()
            invariant
                self.entries@ == entries,
                names_unique(entries),
                names_unique(snap),
                snap.len() == entries.len(),
                sorted@.len() == snap.len(),
                j <= snap.len(),
                forall|k: int| 0 <= k < snap.len() ==> entries.contains(#[trigger] snap[k]),
                forall|n: Seq<char>| has_name(entries, n) ==> has_name(snap, n),
                forall|k1: int, k2: int|
                    0 <= k1 < k2 < snap.len() ==> (#[trigger] snap[k1]).1 >= (
                    #[trigger] snap[k2]).1,
                forall|k: int| j <= k < snap.len() ==> sorted@[k] == snap[k],
                forall|k: int|
                    0 <= k < j ==> (#[trigger] sorted@[k]).0 == snap[k].0 && sorted@[k].1
                        == dense_rank(entries, snap[k].1),
                j > 0 ==> rank == dense_rank(entries, snap[j - 1].1) && prev == snap[j - 1].1
                    && rank <= j,
            decreases snap.len() - j,
        {
            let s = sorted[j].1;
            proof {
                lemma_snap_rank_at(entries, snap, j as int);
            }
            if j == 0 {
                rank = 1;
            } else if s != prev {
                rank = rank + 1;
            }
            sorted[j].1 = rank;
            prev = s;
            j += 1;
        }
        proof {
            lemma_ranks_ok_from_snap(entries, snap, sorted@);
        }
        self.ranks = sorted;
    }
}

/// How one insert reads back: the named row holds the larger of its stored
/// and the offered score, every other name is untouched, and no name is
/// duplicated.
pub proof fn lemma_upsert_props(entries: Seq<(String, usize)>, name: String, score: usize)
    requires
        names_unique(entries),
    ensures
        names_unique(upsert(entries, name, score)),
        lookup(upsert(entries, name, score), name@) == Some(
            if lookup(entries, name@) is Some && lookup(entries, name@)->0 >= score {
                lookup(entries, name@)->0
            } else {
                score
            },
        ),
        forall|n: Seq<char>|
            n != name@ ==> lookup(upsert(entries, name, score), n) == lookup(entries, n),
        upsert(entries, name, score).len() == entries.len() + if has_name(entries, name@) {
            0int
        } else {
            1int
        },
{
    let r = upsert(entries, name, score);
    if has_name(entries, name@) {
        let i = name_index(entries, name@);
        assert(0 <= i < entries.len() && entries[i].0@ == name@);
        assert(forall|k: int| 0 <= k < r.len() ==> (#[trigger] r[k]).0 == entries[k].0);
        assert(names_unique(r));
        assert(r[i].0@ == name@);
        assert(has_name(r, name@));
        let m = name_index(r, name@);
        assert(0 <= m < r.len() && r[m].0@ == name@);
        assert(m == i);
        assert forall|n: Seq<char>| n != name@ implies lookup(r, n) == lookup(entries, n) by {
            if has_name(entries, n) {
                let k = name_index(entries, n);
                assert(r[k].0@ == n);
                assert(has_name(r, n));
                let k2 = name_index(r, n);
                assert(0 <= k2 < r.len() && r[k2].0@ == n);
                assert(k2 == k);
                assert(k != i);
                assert(r[k2].1 == entries[k].1);
            } else {
                assert forall|k: int| 0 <= k < r.len() implies (#[trigger] r[k]).0@ != n by {
                    assert(entries[k].0@ != n);
                }
            }
        }
    } else {
        assert(r =~= entries.push((name, score)));
        assert(forall|k: int| 0 <= k < entries.len() ==> (#[trigger] entries[k]).0@ != name@);
        assert(forall|k: int| 0 <= k < entries.len() ==> r[k] == entries[k]);
        assert(r[entries.len() as int].0@ == name@);
        assert(names_unique(r));
        assert(has_name(r, name@));
        let m = name_index(r, name@);
        assert(0 <= m < r.len() && r[m].0@ == name@);
        assert(m == entries.len());
        assert(lookup(r, name@) == Some(score));
        assert forall|n: Seq<char>| n != name@ implies lookup(r, n) == lookup(entries, n) by {
            if has_name(entries, n) {
                let k = name_index(entries, n);
                assert(r[k].0@ == n);
                assert(has_name(r, n));
                let k2 = name_index(r, n);
                assert(0 <= k2 < r.len() && r[k2].0@ == n);
                assert(k2 < entries.len());
                assert(k2 == k);
            } else {
                assert forall|k: int| 0 <= k < r.len() implies (#[trigger] r[k]).0@ != n by {
                    if k < entries.len() {
                        assert(entries[k].0@ != n);
                    }
                }
            }
        }
    }
}

impl HighScoreList {
    /// Raises the best score stored under `name` to at least `score`, adding
    /// the name if it is new, and recomputes the whole rank table; a stored
    /// best never decreases and entries are never deleted.
    #[verifier::loop_isolation(false)]
    pub fn insert(&mut self, name: String, score: usize)
        requires
            old(self).wf(),
        ensures
            final(self).wf(),
            final(self).entries@ == upsert(old(self).entries@, name, score),
            lookup(final(self).entries@, name@) is Some,
            lookup(final(self).entries@, name@)->0 >= score,
            forall|n: Seq<char>|
                lookup(old(self).entries@, n) is Some ==> lookup(final(self).entries@, n) is Some
                    && lookup(final(self).entries@, n)->0 >= lookup(old(self).entries@, n)->0,
    {
        proof {
            lemma_upsert_props(old(self).entries@, name, score);
        }
        let ghost entries_old = self.entries@;
        let n_rows = self.entries.len();
        let mut i: usize = 0;
        while i < n_rows
            invariant
                self.entries@ == entries_old,
                self.ranks@ == old(self).ranks@,
                n_rows == entries_old.len(),
                i <= n_rows,
                forall|k: int| 0 <= k < i ==> (#[trigger] entries_old[k]).0@ != name@,
            decreases n_rows - i,
        {
            if self.entries[i].0 == name {
                proof {
                    assert(entries_old[i as int].0@ == name@);
                    assert(has_name(entries_old, name@));
                    let m = name_index(entries_old, name@);
                    assert(0 <= m < entries_old.len() && entries_old[m].0@ == name@);
                    assert(m == i);
                }
                if score > self.entries[i].1 {
                    self.entries[i].1 = score;
                }
                proof {
                    assert(self.entries@ =~= upsert(entries_old, name, score));
                }
                self.recompute_ranks();
                return ;
            }
            i += 1;
        }
        proof {
            assert(!has_name(entries_old, name@));
        }
        self.entries.push((name, score));
        proof {
            assert(self.entries@ =~= upsert(entries_old, name, score));
        }
        self.recompute_ranks();
    }

    /// The store reached by inserting every listed row, in order, into an
    /// empty table; this is how a persisted document is replayed at startup.
    pub fn from_entries(list: Vec<(String, usize)>) -> (r: HighScoreList)
        ensures
            r.wf(),
            r.entries@ == replay(list@),
    {
        let mut r = HighScoreList::new();
        let mut i: usize = 0;
        while i < list.len()
            invariant
                i <= list@.len(),
                r.wf(),
                r.entries@ == replay(list@.take(i as int)),
            decreases list@.len() - i,
        {
            let name = list[i].0.clone();
            let score = list[i].1;
            proof {
                assert(list@.take(i as int + 1).drop_last() =~= list@.take(i as int));
                assert(list@.take(i as int + 1).last() == list@[i as int]);
            }
            r.insert(name, score);
            i += 1;
        }
        proof {
            assert(list@.take(list@.len() as int) =~= list@);
        }
        r
    }
}

/// The views of a listing's rows: each name as its character sequence.
pub open spec fn entry_views(entries: Seq<(String, usize)>) -> Seq<(Seq<char>, usize)> {
    entries.map_values(|p: (String, usize)| (p.0@, p.1))
}

/// No name occurs twice among parsed rows.
pub open spec fn view_names_unique(rows: Seq<(Seq<char>, usize)>) -> bool {
    forall|i: int, j: int|
        0 <= i < j < rows.len() ==> (#[trigger] rows[i]).0 != (#[trigger] rows[j]).0
}

/// Some parsed row carries this name.
pub open spec fn has_name_v(rows: Seq<(Seq<char>, usize)>, name: Seq<char>) -> bool {
    exists|i: int| 0 <= i < rows.len() && (#[trigger] rows[i]).0 == name
}

/// The parsed row carrying `name`; meaningful only when `has_name_v` holds
/// and unambiguous whenever `view_names_unique` holds.
pub open spec fn name_index_v(rows: Seq<(Seq<char>, usize)>, name: Seq<char>) -> int {
    choose|i: int| 0 <= i < rows.len() && (#[trigger] rows[i]).0 == name
}

/// The score stored under `name` among parsed rows, if any.
pub open spec fn lookup_v(rows: Seq<(Seq<char>, usize)>, name: Seq<char>) -> Option<usize> {
    if has_name_v(rows, name) {
        Some(rows[name_index_v(rows, name)].1)
    } else {
        None
    }
}

/// One insert on parsed rows: `upsert`, mirrored at the view level.
pub open spec fn upsert_v(
    rows: Seq<(Seq<char>, usize)>,
    name: Seq<char>,
    score: usize,
) -> Seq<(Seq<char>, usize)> {
    if has_name_v(rows, name) {
        let i = name_index_v(rows, name);
        rows.update(i, (rows[i].0, if rows[i].1 >= score { rows[i].1 } else { score }))
    } else {
        rows.push((name, score))
    }
}

/// Replaying parsed rows in order into an empty store: `replay`, mirrored
/// at the view level.
pub open spec fn replay_v(rows: Seq<(Seq<char>, usize)>) -> Seq<(Seq<char>, usize)>
    decreases rows.len(),
{
    if rows.len() == 0 {
        Seq::empty()
    } else {
        upsert_v(replay_v(rows.drop_last()), rows.last().0, rows.last().1)
    }
}

/// The JSON document that `serde_json` writes for a listing's name-to-score
/// map; a function of the listing alone.
pub uninterp spec fn doc_of(entries: Seq<(Seq<char>, usize)>) -> Seq<char>;

/// What `serde_json` parses a document into, when it parses at all: the
/// rows of the string-keyed map, in the order the map hands them out; a
/// function of the document alone.
pub uninterp spec fn parse_of(s: Seq<char>) -> Option<Seq<(Seq<char>, usize)>>;

/// Relies on serde_json::to_string over a BTreeMap built from the rows: the
/// document is a function of the rows alone, and serialization cannot fail
/// for a string-keyed map of integers. The last clause is the round trip:
/// serde_json reads its own document back as the same name-to-score map,
/// so, for rows with distinct names, parsing the document yields rows with
/// exactly the same mapping.
#[verifier::external_body]
fn doc_encode(entries: &Vec<(String, usize)>) -> (r: String)
    ensures
        r@ == doc_of(entry_views(entries@)),
        names_unique(entries@) ==> parse_of(r@) is Some && view_names_unique(parse_of(r@)->0)
            && (forall|n: Seq<char>| #[trigger] lookup_v(parse_of(r@)->0, n) == lookup_v(
            entry_views(entries@),
            n,
        )),
{
    let map: std::collections::BTreeMap<String, usize> =
        entries.iter().map(|p| (p.0.clone(), p.1)).collect();
    serde_json::to_string(&map).unwrap()
}

/// Relies on serde_json::from_str for a string-keyed map of integers: which
/// documents parse is serde_json's affair, so success is only named, never
/// promised; what comes back is a function of the document alone, and a
/// parsed map lists each name once.
#[verifier::external_body]
fn doc_decode(s: &str) -> (r: Option<Vec<(String, usize)>>)
    ensures
        r is Some <==> parse_of(s@) is Some,
        r matches Some(v) ==> names_unique(v@) && entry_views(v@) == parse_of(s@)->0,
{
    match serde_json::from_str::<std::collections::BTreeMap<String, usize>>(s) {
        Ok(map) => Some(map.into_iter().collect()),
        Err(_) => None,
    }
}

/// Row-level and view-level lookups agree on a duplicate-free listing.
proof fn lemma_lookup_views(e: Seq<(String, usize)>, n: Seq<char>)
    requires
        names_unique(e),
    ensures
        has_name_v(entry_views(e), n) == has_name(e, n),
        lookup_v(entry_views(e), n) == lookup(e, n),
{
    let ev = entry_views(e);
    assert(forall|k: int| 0 <= k < e.len() ==> (#[trigger] ev[k]).0 == e[k].0@ && ev[k].1
        == e[k].1);
    if has_name(e, n) {
        let i = name_index(e, n);
        assert(0 <= i < e.len() && e[i].0@ == n);
        assert(ev[i].0 == n);
        assert(has_name_v(ev, n));
        let j = name_index_v(ev, n);
        assert(0 <= j < ev.len() && ev[j].0 == n);
        assert(e[j].0@ == n);
        assert(j == i);
    } else {
        if has_name_v(ev, n) {
            let j = name_index_v(ev, n);
            assert(e[j].0@ == n);
        }
    }
}

/// One insert commutes with taking views, on a duplicate-free listing.
proof fn lemma_upsert_views(e: Seq<(String, usize)>, name: String, score: usize)
    requires
        names_unique(e),
    ensures
        entry_views(upsert(e, name, score)) == upsert_v(entry_views(e), name@, score),
{
    let ev = entry_views(e);
    assert(forall|k: int| 0 <= k < e.len() ==> (#[trigger] ev[k]).0 == e[k].0@ && ev[k].1
        == e[k].1);
    lemma_lookup_views(e, name@);
    if has_name(e, name@) {
        let i = name_index(e, name@);
        assert(0 <= i < e.len() && e[i].0@ == name@);
        let j = name_index_v(ev, name@);
        assert(0 <= j < ev.len() && ev[j].0 == name@);
        assert(e[j].0@ == name@);
        assert(j == i);
        assert(entry_views(upsert(e, name, score)) =~= upsert_v(ev, name@, score));
    } else {
        assert(entry_views(upsert(e, name, score)) =~= upsert_v(ev, name@, score));
    }
}

/// Replaying commutes with taking views, and a replayed listing never
/// repeats a name.
proof fn lemma_replay_views(list: Seq<(String, usize)>)
    ensures
        names_unique(replay(list)),
        entry_views(replay(list)) == replay_v(entry_views(list)),
    decreases list.len(),
{
    let ev = entry_views(list);
    if list.len() == 0 {
        assert(entry_views(replay(list)) =~= replay_v(ev));
    } else {
        let dl = list.drop_last();
        lemma_replay_views(dl);
        lemma_upsert_props(replay(dl), list.last().0, list.last().1);
        lemma_upsert_views(replay(dl), list.last().0, list.last().1);
        assert(entry_views(dl) =~= ev.drop_last());
        assert(ev.last() == (list.last().0@, list.last().1));
    }
}

/// Replaying rows that list each name once reproduces them exactly.
proof fn lemma_replay_v_of_unique(rows: Seq<(Seq<char>, usize)>)
    requires
        view_names_unique(rows),
    ensures
        replay_v(rows) == rows,
    decreases rows.len(),
{
    if rows.len() > 0 {
        let dl = rows.drop_last();
        assert(view_names_unique(dl));
        lemma_replay_v_of_unique(dl);
        assert(forall|k: int| 0 <= k < dl.len() ==> (#[trigger] dl[k]).0 != rows.last().0);
        assert(!has_name_v(dl, rows.last().0));
        assert(replay_v(rows) == dl.push(rows.last()));
        assert(dl.push(rows.last()) =~= rows);
    }
}

impl HighScoreList {
    /// The persisted form of the store: one JSON object mapping each display
    /// name to its best score. For a well-formed store the document reads
    /// back as rows with exactly the store's mapping.
    pub fn to_doc(&self) -> (r: String)
        ensures
            r@ == doc_of(entry_views(self.entries@)),
            names_unique(self.entries@) ==> parse_of(r@) is Some && view_names_unique(
                parse_of(r@)->0,
            ) && (forall|n: Seq<char>| #[trigger] lookup_v(parse_of(r@)->0, n) == lookup_v(
                entry_views(self.entries@),
                n,
            )),
    {
        doc_encode(&self.entries)
    }

    /// Rebuilds a store from a persisted document by replaying an insert for
    /// every parsed row, in row order; a document that does not parse yields
    /// an empty store, mirroring a missing or corrupt file at startup.
    pub fn load_doc(s: &str) -> (r: HighScoreList)
        ensures
            r.wf(),
            parse_of(s@) matches Some(rows) ==> entry_views(r.entries@) == replay_v(rows),
            parse_of(s@) is None ==> r.entries@.len() == 0,
    {
        match doc_decode(s) {
            Some(list) => {
                let ghost l = list@;
                let r = HighScoreList::from_entries(list);
                proof {
                    lemma_replay_views(l);
                }
                r
            },
            None => {
                HighScoreList::new()
            },
        }
    }

    /// Rebuilds the store by parsing its own persisted document and
    /// replaying the rows — the cold-load path — and comes back with the
    /// same best score and the same rank for every name as the live store.
    pub fn reload(&self) -> (r: HighScoreList)
        requires
            self.wf(),
        ensures
            r.wf(),
            forall|n: Seq<char>| #[trigger] lookup(r.entries@, n) == lookup(self.entries@, n),
            forall|n: Seq<char>| #[trigger] lookup(r.ranks@, n) == lookup(self.ranks@, n),
    {
        let doc = self.to_doc();
        let r = HighScoreList::load_doc(doc.as_str());
        proof {
            let rows = parse_of(doc@)->0;
            assert forall|n: Seq<char>| #[trigger] lookup(r.entries@, n) == lookup(
                self.entries@,
                n,
            ) by {
                lemma_save_load_round_trip(*self, r, rows, n);
            }
            assert forall|n: Seq<char>| #[trigger] lookup(r.ranks@, n) == lookup(
                self.ranks@,
                n,
            ) by {
                lemma_save_load_round_trip(*self, r, rows, n);
            }
        }
        r
    }

    /// The externally visible best-score rows, one per entry, in store order.
    pub fn highscore_rows(&self) -> (r: Vec<HighScore>)
        ensures
            r@.len() == self.entries@.len(),
            forall|i: int|
                0 <= i < r@.len() ==> (#[trigger] r@[i]).name == self.entries@[i].0
                    && r@[i].score == self.entries@[i].1,
    {
        let mut r: Vec<HighScore> = Vec::new();
        let mut i: usize = 0;
        while i < self.entries.len()
            invariant
                i <= self.entries@.len(),
                r@.len() == i,
                forall|k: int|
                    0 <= k < i ==> (#[trigger] r@[k]).name == self.entries@[k].0 && r@[k].score
                        == self.entries@[k].1,
            decreases self.entries@.len() - i,
        {
            let name = self.entries[i].0.clone();
            r.push(HighScore::new(name, self.entries[i].1));
            i += 1;
        }
        r
    }

    /// The externally visible rank rows: each rank-table row paired with its
    /// list position.
    pub fn rank_rows(&self) -> (r: Vec<HighScoreRank>)
        ensures
            r@.len() == self.ranks@.len(),
            forall|i: int|
                0 <= i < r@.len() ==> (#[trigger] r@[i]).position == i && r@[i].rank
                    == self.ranks@[i].1,
    {
        let mut r: Vec<HighScoreRank> = Vec::new();
        let mut i: usize = 0;
        while i < self.ranks.len()
            invariant
                i <= self.ranks@.len(),
                r@.len() == i,
                forall|k: int|
                    0 <= k < i ==> (#[trigger] r@[k]).position == k && r@[k].rank
                        == self.ranks@[k].1,
            decreases self.ranks@.len() - i,
        {
            r.push(HighScoreRank::new(i, self.ranks[i].1));
            i += 1;
        }
        r
    }
}

/// Law: replaying a duplicate-free listing into an empty store reproduces
/// that listing exactly, row for row.
pub proof fn lemma_replay_of_unique(list: Seq<(String, usize)>)
    requires
        names_unique(list),
    ensures
        replay(list) == list,
    decreases list.len(),
{
    if list.len() > 0 {
        let dl = list.drop_last();
        assert(names_unique(dl));
        lemma_replay_of_unique(dl);
        assert(forall|k: int| 0 <= k < dl.len() ==> (#[trigger] dl[k]).0@ != list.last().0@);
        assert(!has_name(dl, list.last().0@));
        assert(replay(list) == dl.push(list.last()));
        assert(dl.push(list.last()) =~= list);
    }
}

/// Law: the rank of every name is a function of the best-score mapping
/// alone, so two well-formed stores that agree on every looked-up score
/// agree on every looked-up rank, whatever order their rows sit in.
pub proof fn lemma_rank_table_agrees(a: HighScoreList, b: HighScoreList, n: Seq<char>)
    requires
        a.wf(),
        b.wf(),
        forall|m: Seq<char>| lookup(a.entries@, m) == lookup(b.entries@, m),
    ensures
        lookup(a.ranks@, n) == lookup(b.ranks@, n),
{
    let ea = a.entries@;
    let eb = b.entries@;
    assert forall|v: usize| val_set(ea).contains(v) implies val_set(eb).contains(v) by {
        assert(scores_of(ea).contains(v));
        let k = choose|k: int| 0 <= k < scores_of(ea).len() && scores_of(ea)[k] == v;
        assert(scores_of(ea)[k] == ea[k].1);
        assert(ea.contains(ea[k]));
        lemma_lookup_of_row(ea, ea[k]);
        let m = ea[k].0@;
        assert(lookup(eb, m) == Some(v));
        let k2 = name_index(eb, m);
        assert(0 <= k2 < eb.len() && eb[k2].1 == v);
        assert(scores_of(eb)[k2] == v);
        assert(scores_of(eb).contains(v));
    }
    assert forall|v: usize| val_set(eb).contains(v) implies val_set(ea).contains(v) by {
        assert(scores_of(eb).contains(v));
        let k = choose|k: int| 0 <= k < scores_of(eb).len() && scores_of(eb)[k] == v;
        assert(scores_of(eb)[k] == eb[k].1);
        assert(eb.contains(eb[k]));
        lemma_lookup_of_row(eb, eb[k]);
        let m = eb[k].0@;
        assert(lookup(ea, m) == Some(v));
        let k2 = name_index(ea, m);
        assert(0 <= k2 < ea.len() && ea[k2].1 == v);
        assert(scores_of(ea)[k2] == v);
        assert(scores_of(ea).contains(v));
    }
    assert(val_set(ea) =~= val_set(eb));
    assert forall|s: usize| true implies dense_rank(ea, s) == dense_rank(eb, s) by {
        assert(scores_above(ea, s) =~= scores_above(eb, s));
    }
    if has_name(a.ranks@, n) {
        let i = name_index(a.ranks@, n);
        assert(0 <= i < a.ranks@.len() && a.ranks@[i].0@ == n);
        assert(lookup(ea, a.ranks@[i].0@) is Some);
        assert(lookup(eb, n) is Some);
        assert(has_name(eb, n));
        assert(has_name(b.ranks@, n));
        let j = name_index(b.ranks@, n);
        assert(0 <= j < b.ranks@.len() && b.ranks@[j].0@ == n);
        assert(a.ranks@[i].1 == dense_rank(ea, lookup(ea, n)->0));
        assert(b.ranks@[j].1 == dense_rank(eb, lookup(eb, n)->0));
        assert(lookup(a.ranks@, n) == Some(a.ranks@[i].1));
        assert(lookup(b.ranks@, n) == Some(b.ranks@[j].1));
    } else {
        if has_name(b.ranks@, n) {
            let j = name_index(b.ranks@, n);
            assert(0 <= j < b.ranks@.len() && b.ranks@[j].0@ == n);
            assert(lookup(eb, b.ranks@[j].0@) is Some);
            assert(lookup(ea, n) is Some);
            assert(has_name(ea, n));
            assert(has_name(a.ranks@, n));
        }
        assert(lookup(a.ranks@, n) is None && lookup(b.ranks@, n) is None);
    }
}

/// Law: dense ranking. The table's top row has rank 1; walking down the
/// table, a row whose stored score ties its predecessor's shares the
/// predecessor's rank, and a row whose score is strictly lower takes the
/// predecessor's rank plus one — ties never create a gap.
pub proof fn lemma_dense_ranking_no_gaps(list: HighScoreList, i: int)
    requires
        list.wf(),
        0 < i < list.ranks@.len(),
    ensures
        list.ranks@[0].1 == 1,
        lookup(list.entries@, list.ranks@[i].0@)->0 == lookup(
            list.entries@,
            list.ranks@[i - 1].0@,
        )->0 ==> list.ranks@[i].1 == list.ranks@[i - 1].1,
        lookup(list.entries@, list.ranks@[i].0@)->0 < lookup(
            list.entries@,
            list.ranks@[i - 1].0@,
        )->0 ==> list.ranks@[i].1 == list.ranks@[i - 1].1 + 1,
{
    let e = list.entries@;
    let r = list.ranks@;
    assert forall|v: usize| val_set(e).contains(v) implies exists|t: int|
        0 <= t < r.len() && lookup(e, (#[trigger] r[t]).0@) == Some(v) by {
        assert(scores_of(e).contains(v));
        let k = choose|k: int| 0 <= k < scores_of(e).len() && scores_of(e)[k] == v;
        assert(scores_of(e)[k] == e[k].1);
        assert(e.contains(e[k]));
        lemma_lookup_of_row(e, e[k]);
        let t = choose|t: int| 0 <= t < r.len() && (#[trigger] r[t]).0@ == e[k].0@;
        assert(lookup(e, r[t].0@) == Some(v));
    }
    let s0 = lookup(e, r[0].0@)->0;
    assert forall|v: usize| val_set(e).contains(v) implies v <= s0 by {
        let t = choose|t: int|
            0 <= t < r.len() && lookup(e, (#[trigger] r[t]).0@) == Some(v);
        assert(t == 0 || lookup(e, r[0].0@)->0 >= lookup(e, r[t].0@)->0);
    }
    lemma_dense_rank_top(e, s0);
    assert(has_name(e, r[0].0@));
    let k0 = name_index(e, r[0].0@);
    assert(scores_of(e)[k0] == e[k0].1);
    assert(scores_of(e).contains(s0));
    assert(val_set(e).contains(s0));
    assert(r[0].1 == dense_rank(e, s0) == 1);
    let si = lookup(e, r[i].0@)->0;
    let sp = lookup(e, r[i - 1].0@)->0;
    if si < sp {
        assert(has_name(e, r[i - 1].0@));
        let kp = name_index(e, r[i - 1].0@);
        assert(scores_of(e)[kp] == e[kp].1);
        assert(scores_of(e).contains(sp));
        assert(val_set(e).contains(sp));
        assert forall|v: usize| val_set(e).contains(v) implies !(si < v < sp) by {
            let t = choose|t: int|
                0 <= t < r.len() && lookup(e, (#[trigger] r[t]).0@) == Some(v);
            if t <= i - 1 {
                assert(t == i - 1 || lookup(e, r[t].0@)->0 >= lookup(e, r[i - 1].0@)->0);
            } else {
                assert(lookup(e, r[i].0@)->0 >= lookup(e, r[t].0@)->0);
            }
        }
        lemma_dense_rank_succ(e, sp, si);
    }
}

/// Law: rebuilding a store from parsed rows that carry the same mapping as
/// a live store — which `to_doc` and `load_doc` together guarantee of a
/// saved document — yields the same best score and the same rank for every
/// name, so the table is identical whether built incrementally or loaded
/// cold.
pub proof fn lemma_save_load_round_trip(
    a: HighScoreList,
    b: HighScoreList,
    rows: Seq<(Seq<char>, usize)>,
    n: Seq<char>,
)
    requires
        a.wf(),
        b.wf(),
        view_names_unique(rows),
        forall|m2: Seq<char>| #[trigger] lookup_v(rows, m2) == lookup_v(
            entry_views(a.entries@),
            m2,
        ),
        entry_views(b.entries@) == replay_v(rows),
    ensures
        lookup(b.entries@, n) == lookup(a.entries@, n),
        lookup(b.ranks@, n) == lookup(a.ranks@, n),
{
    lemma_replay_v_of_unique(rows);
    assert(entry_views(b.entries@) == rows);
    assert forall|m2: Seq<char>| #[trigger] lookup(b.entries@, m2) == lookup(
        a.entries@,
        m2,
    ) by {
        lemma_lookup_views(b.entries@, m2);
        lemma_lookup_views(a.entries@, m2);
        assert(lookup_v(rows, m2) == lookup_v(entry_views(a.entries@), m2));
    }
    lemma_rank_table_agrees(a, b, n);
}

/// Law: persisting a store and replaying the loaded rows rebuilds the same
/// best-score mapping, and with it the same rank for every name.
pub proof fn lemma_reload_preserves_ranks(a: HighScoreList, b: HighScoreList, n: Seq<char>)
    requires
        a.wf(),
        b.wf(),
        b.entries@ == replay(a.entries@),
    ensures
        lookup(b.entries@, n) == lookup(a.entries@, n),
        lookup(b.ranks@, n) == lookup(a.ranks@, n),
{
    lemma_replay_of_unique(a.entries@);
    lemma_rank_table_agrees(a, b, n);
}

} // verus!
