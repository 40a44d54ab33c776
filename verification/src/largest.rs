//! The largest files of a scan.

use vstd::prelude::*;
use crate::entry::{EntryKind, FileStats, count_kind};
use crate::ranking::{
    ahead, lemma_top_unique, places, ranked_below, smaller, top_places, top_ranked,
};
use crate::scan::FileSystem;

verus! {

/// Whether the record at `i` comes before the record at `j` among the
/// largest: the larger one first, and of two of one size the one that the
/// walk met first.
pub open spec fn outranks(records: Seq<FileStats>, i: int, j: int) -> bool {
    records[i].size > records[j].size || (records[i].size == records[j].size && i < j)
}

/// `picks` are the places in `records` of files, each before the ones that
/// it outranks, and each outranks every file that is not picked.
pub open spec fn leading_picks(records: Seq<FileStats>, picks: Seq<int>) -> bool {
    &&& forall|k: int|
        0 <= k < picks.len() ==> 0 <= #[trigger] picks[k] < records.len()
            && records[picks[k]].is_file()
    &&& forall|k: int, l: int|
        0 <= k < l < picks.len() ==> outranks(records, #[trigger] picks[k], #[trigger] picks[l])
    &&& forall|k: int, j: int|
        0 <= k < picks.len() && 0 <= j < records.len() && (#[trigger] records[j]).is_file()
            && !picks.contains(j) ==> outranks(records, #[trigger] picks[k], j)
}

/// `picks` are the places in `records` of its `limit` largest files, or of
/// all its files where they are fewer, from the largest down.
pub open spec fn largest_picks(records: Seq<FileStats>, limit: nat, picks: Seq<int>) -> bool {
    &&& leading_picks(records, picks)
    &&& picks.len() == smaller(limit, count_kind(records, EntryKind::File))
}

/// `largest` holds the records at the places `picks`, in that order.
pub open spec fn shows(largest: Seq<&FileStats>, records: Seq<FileStats>, picks: Seq<int>) -> bool {
    &&& largest.len() == picks.len()
    &&& forall|k: int| 0 <= k < largest.len() ==> *(#[trigger] largest[k]) == records[picks[k]]
}

/// The weight of each record among the largest files: its size where it is
/// a file, and none where it is not.
spec fn file_weights(records: Seq<FileStats>) -> Seq<Option<u64>> {
    Seq::new(
        records.len(),
        |i: int|
            if records[i].is_file() {
                Some(records[i].size)
            } else {
                None
            },
    )
}

/// As many of the first `n` records have a weight as are files.
proof fn lemma_weighted_files(records: Seq<FileStats>, n: int)
    requires
        0 <= n <= records.len(),
    ensures
        ranked_below(file_weights(records), n) == count_kind(records.take(n), EntryKind::File),
    decreases n,
{
    if n > 0 {
        lemma_weighted_files(records, n - 1);
        assert(records.take(n).drop_last() =~= records.take(n - 1));
    }
}

/// The largest files are the first in rank by their weights.
proof fn lemma_largest_ranked(records: Seq<FileStats>, limit: nat, picks: Seq<int>)
    ensures
        largest_picks(records, limit, picks) <==> top_ranked(file_weights(records), limit, picks),
{
    let weights = file_weights(records);
    lemma_weighted_files(records, records.len() as int);
    assert(records.take(records.len() as int) =~= records);
    assert forall|i: int, j: int|
        0 <= i < records.len() && 0 <= j < records.len() && records[i].is_file()
            && records[j].is_file() implies ahead(weights, i, j) == outranks(records, i, j) by {}
    if largest_picks(records, limit, picks) {
        assert forall|k: int, l: int| 0 <= k < l < picks.len() implies ahead(
            weights,
            #[trigger] picks[k],
            #[trigger] picks[l],
        ) by {
            assert(outranks(records, picks[k], picks[l]));
        }
        assert forall|k: int, j: int|
            0 <= k < picks.len() && 0 <= j < weights.len() && (#[trigger] weights[j]) is Some
                && !picks.contains(j) implies ahead(weights, #[trigger] picks[k], j) by {
            assert(records[j].is_file());
            assert(outranks(records, picks[k], j));
        }
    }
    if top_ranked(weights, limit, picks) {
        assert forall|k: int| 0 <= k < picks.len() implies 0 <= #[trigger] picks[k]
            < records.len() && records[picks[k]].is_file() by {
            assert(weights[picks[k]] is Some);
        }
        assert forall|k: int, l: int| 0 <= k < l < picks.len() implies outranks(
            records,
            #[trigger] picks[k],
            #[trigger] picks[l],
        ) by {
            assert(ahead(weights, picks[k], picks[l]));
        }
        assert forall|k: int, j: int|
            0 <= k < picks.len() && 0 <= j < records.len() && (#[trigger] records[j]).is_file()
                && !picks.contains(j) implies outranks(records, #[trigger] picks[k], j) by {
            assert(weights[j] is Some);
            assert(ahead(weights, picks[k], j));
        }
    }
}

impl FileSystem {
    /// The `limit` largest files on record, or all files where they are
    /// fewer, from the largest down; files of one size stand in the order
    /// in which the walk met them. Directories and other entries are never
    /// among them.
    pub fn find_largest_files(&self, limit: usize) -> (largest: Vec<&FileStats>)
        ensures
            exists|picks: Seq<int>|
                largest_picks(self.records(), limit as nat, picks) && shows(
                    largest@,
                    self.records(),
                    picks,
                ),
    {
        let mut weights: Vec<Option<u64>> = Vec::new();
        let mut seen: usize = 0;
        while seen < self.stats.len()
            invariant
                seen <= self.stats.len(),
                weights@.len() == seen,
                forall|i: int| 0 <= i < seen ==> weights@[i] == file_weights(self.stats@)[i],
            decreases self.stats.len() - seen,
        {
            if self.stats[seen].is_regular_file() {
                weights.push(Some(self.stats[seen].size));
            } else {
                weights.push(None);
            }
            seen += 1;
        }
        let top = top_places(&weights, limit);
        let ghost picks = places(top@);
        proof {
            assert(weights@ =~= file_weights(self.stats@));
            lemma_largest_ranked(self.stats@, limit as nat, picks);
        }
        let mut largest: Vec<&FileStats> = Vec::new();
        let mut k: usize = 0;
        while k < top.len()
            invariant
                k <= top.len(),
                picks == places(top@),
                largest_picks(self.stats@, limit as nat, picks),
                largest@.len() == k,
                forall|i: int| 0 <= i < k ==> *(#[trigger] largest@[i]) == self.stats@[picks[i]],
            decreases top.len() - k,
        {
            proof {
                assert(0 <= picks[k as int] < self.stats@.len());
            }
            largest.push(&self.stats[top[k]]);
            k += 1;
        }
        proof {
            assert(largest_picks(self.records(), limit as nat, picks));
            assert(shows(largest@, self.records(), picks));
        }
        largest
    }
}

/// The largest files stand from the largest down, there are as many of them
/// as asked for or as there are files, each is a file on record, and none
/// stands twice.
pub proof fn lemma_largest_sorted(
    records: Seq<FileStats>,
    limit: nat,
    picks: Seq<int>,
    largest: Seq<&FileStats>,
)
    requires
        largest_picks(records, limit, picks),
        shows(largest, records, picks),
    ensures
        forall|k: int, l: int|
            0 <= k < l < largest.len() ==> (#[trigger] largest[k]).size >= (#[trigger] largest[l]).size,
        largest.len() == smaller(limit, count_kind(records, EntryKind::File)),
        forall|k: int| 0 <= k < largest.len() ==> (#[trigger] largest[k]).is_file(),
        picks.no_duplicates(),
{
    assert forall|k: int, l: int| 0 <= k < l < largest.len() implies (#[trigger] largest[k]).size
        >= (#[trigger] largest[l]).size by {
        assert(outranks(records, picks[k], picks[l]));
    }
    assert forall|k: int, l: int| 0 <= k < picks.len() && 0 <= l < picks.len() && k != l implies picks[k]
        != picks[l] by {
        if k < l {
            assert(outranks(records, picks[k], picks[l]));
        } else {
            assert(outranks(records, picks[l], picks[k]));
        }
    }
}

/// Places of files that differ from each other are no more than there are
/// files, and where they are as many, every file is at one of them.
proof fn lemma_picks_counted(records: Seq<FileStats>, picks: Seq<int>)
    requires
        forall|k: int|
            0 <= k < picks.len() ==> 0 <= #[trigger] picks[k] < records.len()
                && records[picks[k]].is_file(),
        picks.no_duplicates(),
    ensures
        picks.len() <= count_kind(records, EntryKind::File),
        picks.len() == count_kind(records, EntryKind::File) ==> forall|j: int|
            0 <= j < records.len() && (#[trigger] records[j]).is_file() ==> picks.contains(j),
    decreases records.len(),
{
    if records.len() == 0 {
        if picks.len() > 0 {
            assert(0 <= picks[0] < records.len());
        }
    } else {
        let end = records.len() - 1;
        let rest = records.drop_last();
        if picks.contains(end) {
            let m = choose|m: int| 0 <= m < picks.len() && picks[m] == end;
            let others = picks.remove(m);
            assert forall|k: int| 0 <= k < others.len() implies 0 <= #[trigger] others[k]
                < rest.len() && rest[others[k]].is_file() by {
                if k < m {
                    assert(others[k] == picks[k]);
                } else {
                    assert(others[k] == picks[k + 1]);
                }
            }
            assert forall|k: int, l: int|
                0 <= k < others.len() && 0 <= l < others.len() && k != l implies others[k]
                != others[l] by {
                let a = if k < m { k } else { k + 1 };
                let b = if l < m { l } else { l + 1 };
                assert(others[k] == picks[a] && others[l] == picks[b]);
            }
            lemma_picks_counted(rest, others);
            if picks.len() == count_kind(records, EntryKind::File) {
                assert forall|j: int| 0 <= j < records.len() && (#[trigger] records[j]).is_file() implies picks.contains(
                    j,
                ) by {
                    if j < end {
                        assert(rest[j].is_file());
                        assert(others.contains(j));
                        let k = choose|k: int| 0 <= k < others.len() && others[k] == j;
                        if k < m {
                            assert(picks[k] == j);
                        } else {
                            assert(picks[k + 1] == j);
                        }
                    }
                }
            }
        } else {
            assert forall|k: int| 0 <= k < picks.len() implies 0 <= #[trigger] picks[k]
                < rest.len() && rest[picks[k]].is_file() by {
                assert(picks.contains(picks[k]));
            }
            lemma_picks_counted(rest, picks);
            if picks.len() == count_kind(records, EntryKind::File) {
                assert forall|j: int| 0 <= j < records.len() && (#[trigger] records[j]).is_file() implies picks.contains(
                    j,
                ) by {
                    assert(rest[j].is_file());
                }
            }
        }
    }
}

/// With a limit of 0 there are no largest files; with a limit that is no
/// less than the number of files, the largest files are all the files.
pub proof fn lemma_largest_bounds(
    records: Seq<FileStats>,
    limit: nat,
    picks: Seq<int>,
    largest: Seq<&FileStats>,
)
    requires
        largest_picks(records, limit, picks),
        shows(largest, records, picks),
    ensures
        limit == 0 ==> largest == Seq::<&FileStats>::empty(),
        limit >= count_kind(records, EntryKind::File) ==> {
            &&& largest.len() == count_kind(records, EntryKind::File)
            &&& forall|j: int|
                0 <= j < records.len() && (#[trigger] records[j]).is_file() ==> picks.contains(j)
        },
{
    if limit == 0 {
        assert(largest =~= Seq::<&FileStats>::empty());
    }
    if limit >= count_kind(records, EntryKind::File) {
        lemma_largest_sorted(records, limit, picks, largest);
        lemma_picks_counted(records, picks);
    }
}

/// Only one choice of places is that of the largest files: what
/// `find_largest_files` returns is the same whenever the records and the
/// limit are.
pub proof fn lemma_largest_unique(
    records: Seq<FileStats>,
    limit: nat,
    one: Seq<int>,
    other: Seq<int>,
)
    requires
        largest_picks(records, limit, one),
        largest_picks(records, limit, other),
    ensures
        one == other,
{
    lemma_largest_ranked(records, limit, one);
    lemma_largest_ranked(records, limit, other);
    lemma_top_unique(file_weights(records), limit, one, other);
}

} // verus!
