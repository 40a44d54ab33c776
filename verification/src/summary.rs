//! Files counted and their sizes added up, extension by extension.

use vstd::prelude::*;
use crate::entry::{
    EntryKind, FileStats, count_kind, file_bytes, lemma_count_kind_bounded, lemma_file_bytes_prefix,
};
use crate::pathname::{extension_key, extension_key_of};
use crate::ranking::{ahead, lemma_top_unique, places, ranked_below, top_places, top_ranked};
use crate::scan::FileSystem;

verus! {

/// The files of one extension.
#[derive(Debug, PartialEq, Eq)]
pub struct ExtensionSummary {
    /// The key of the group: an extension in lowercase, or `no_extension`.
    pub extension: String,
    /// How many files the group holds.
    pub count: usize,
    /// The bytes in those files.
    pub total_size: u64,
}

/// The place of the first entry of `summary` under `key`, or the length of
/// `summary` where it holds none.
pub open spec fn position_of(summary: Seq<ExtensionSummary>, key: Seq<char>) -> int
    decreases summary.len(),
{
    if summary.len() == 0 || summary.first().extension@ == key {
        0
    } else {
        1 + position_of(summary.drop_first(), key)
    }
}

/// `after` is `before` with one more file of `size` bytes counted under
/// `key`: in the first entry under that key, or in a new entry at the end
/// where there was none.
pub open spec fn counted(
    before: Seq<ExtensionSummary>,
    after: Seq<ExtensionSummary>,
    key: Seq<char>,
    size: u64,
) -> bool {
    let at = position_of(before, key);
    if at < before.len() {
        &&& after.len() == before.len()
        &&& after[at].extension@ == key
        &&& after[at].count == before[at].count + 1
        &&& after[at].total_size == before[at].total_size + size
        &&& forall|i: int| 0 <= i < before.len() && i != at ==> after[i] == before[i]
    } else {
        &&& after.len() == before.len() + 1
        &&& after.last().extension@ == key
        &&& after.last().count == 1
        &&& after.last().total_size == size
        &&& after.drop_last() == before
    }
}

/// Counts one more file of `size` bytes under `key`.
pub fn record_extension(summary: &mut Vec<ExtensionSummary>, key: String, size: u64)
    requires
        ({
            let at = position_of(old(summary)@, key@);
            at < old(summary)@.len() ==> old(summary)@[at].count < usize::MAX && old(
                summary,
            )@[at].total_size + size <= u64::MAX
        }),
    ensures
        counted(old(summary)@, final(summary)@, key@, size),
{
    let mut at: usize = 0;
    proof {
        assert(summary@.skip(0) =~= summary@);
    }
    while at < summary.len() && summary[at].extension != key
        invariant
            at <= summary.len(),
            *summary == *old(summary),
            position_of(summary@, key@) == at + position_of(summary@.skip(at as int), key@),
        decreases summary.len() - at,
    {
        proof {
            assert(summary@.skip(at as int).drop_first() =~= summary@.skip(at + 1));
        }
        at += 1;
    }
    if at < summary.len() {
        summary[at].count += 1;
        summary[at].total_size += size;
    } else {
        summary.push(ExtensionSummary { extension: key, count: 1, total_size: size });
        proof {
            assert(summary@.drop_last() =~= old(summary)@);
        }
    }
}

/// What a file record adds to a total: 1 where files are counted, its size
/// where bytes are.
pub open spec fn share(record: FileStats, counting: bool) -> nat {
    if counting {
        1
    } else {
        record.size as nat
    }
}

/// The shares of the files among `records` whose extension key is `key`.
pub open spec fn keyed_total(records: Seq<FileStats>, key: Seq<char>, counting: bool) -> nat
    decreases records.len(),
{
    if records.len() == 0 {
        0
    } else {
        let before = keyed_total(records.drop_last(), key, counting);
        if records.last().is_file() && extension_key(records.last().path@) == key {
            before + share(records.last(), counting)
        } else {
            before
        }
    }
}

/// How many files among `records` have the extension key `key`.
pub open spec fn keyed_count(records: Seq<FileStats>, key: Seq<char>) -> nat {
    keyed_total(records, key, true)
}

/// The bytes in the files among `records` that have the extension key `key`.
pub open spec fn keyed_bytes(records: Seq<FileStats>, key: Seq<char>) -> nat {
    keyed_total(records, key, false)
}

/// The extension keys of the files among `records`, each once, in the order
/// in which the walk first met them.
pub open spec fn extension_keys(records: Seq<FileStats>) -> Seq<Seq<char>>
    decreases records.len(),
{
    if records.len() == 0 {
        Seq::empty()
    } else {
        let before = extension_keys(records.drop_last());
        let key = extension_key(records.last().path@);
        if records.last().is_file() && !before.contains(key) {
            before.push(key)
        } else {
            before
        }
    }
}

/// `summary` is the summary of `records`: one entry for each extension key
/// of its files, in the order of `extension_keys`, with the number of files
/// under that key and the bytes in them.
pub open spec fn summarizes(summary: Seq<ExtensionSummary>, records: Seq<FileStats>) -> bool {
    let keys = extension_keys(records);
    &&& summary.len() == keys.len()
    &&& forall|i: int|
        0 <= i < summary.len() ==> {
            &&& (#[trigger] summary[i]).extension@ == keys[i]
            &&& summary[i].count == keyed_count(records, keys[i])
            &&& summary[i].total_size == keyed_bytes(records, keys[i])
        }
}

/// The counts of the entries of `summary` added up where `counting`, else
/// their sizes.
pub open spec fn summed(summary: Seq<ExtensionSummary>, counting: bool) -> nat
    decreases summary.len(),
{
    if summary.len() == 0 {
        0
    } else {
        let last = if counting {
            summary.last().count as nat
        } else {
            summary.last().total_size as nat
        };
        summed(summary.drop_last(), counting) + last
    }
}

/// The files that the entries of `summary` count, all together.
pub open spec fn summary_files(summary: Seq<ExtensionSummary>) -> nat {
    summed(summary, true)
}

/// The bytes that the entries of `summary` hold, all together.
pub open spec fn summary_bytes(summary: Seq<ExtensionSummary>) -> nat {
    summed(summary, false)
}

/// The shares of all the files among `records`.
spec fn file_total(records: Seq<FileStats>, counting: bool) -> nat {
    if counting {
        count_kind(records, EntryKind::File)
    } else {
        file_bytes(records)
    }
}

/// The shares of the files among `records` under each of `keys`, added up.
spec fn keys_total(records: Seq<FileStats>, keys: Seq<Seq<char>>, counting: bool) -> nat
    decreases keys.len(),
{
    if keys.len() == 0 {
        0
    } else {
        keys_total(records, keys.drop_last(), counting) + keyed_total(
            records,
            keys.last(),
            counting,
        )
    }
}

/// The first entry under a key has that key, and no entry before it has.
proof fn lemma_position(summary: Seq<ExtensionSummary>, key: Seq<char>)
    ensures
        0 <= position_of(summary, key) <= summary.len(),
        position_of(summary, key) < summary.len() ==> summary[position_of(
            summary,
            key,
        )].extension@ == key,
        forall|i: int| 0 <= i < position_of(summary, key) ==> summary[i].extension@ != key,
    decreases summary.len(),
{
    if summary.len() > 0 && summary.first().extension@ != key {
        let rest = summary.drop_first();
        lemma_position(rest, key);
        assert forall|i: int| 0 <= i < position_of(summary, key) implies summary[i].extension@
            != key by {
            if i > 0 {
                assert(rest[i - 1] == summary[i]);
            }
        }
    }
}

/// No extension key is listed twice.
pub proof fn lemma_keys_distinct(records: Seq<FileStats>)
    ensures
        extension_keys(records).no_duplicates(),
    decreases records.len(),
{
    if records.len() > 0 {
        lemma_keys_distinct(records.drop_last());
    }
}

/// No two entries of a summary stand under one key.
pub proof fn lemma_summary_keys_unique(summary: Seq<ExtensionSummary>, records: Seq<FileStats>)
    requires
        summarizes(summary, records),
    ensures
        forall|i: int, j: int|
            0 <= i < summary.len() && 0 <= j < summary.len() && i != j ==> (#[trigger] summary[i]).extension@
                != (#[trigger] summary[j]).extension@,
{
    lemma_keys_distinct(records);
}

/// A key that is not listed has no file under it.
proof fn lemma_unlisted_key(records: Seq<FileStats>, key: Seq<char>, counting: bool)
    requires
        !extension_keys(records).contains(key),
    ensures
        keyed_total(records, key, counting) == 0,
    decreases records.len(),
{
    if records.len() > 0 {
        let before = extension_keys(records.drop_last());
        let last = extension_key(records.last().path@);
        if records.last().is_file() && !before.contains(last) {
            assert(before.push(last).last() == last);
            assert forall|i: int| 0 <= i < before.len() implies before[i] != key by {
                assert(before.push(last)[i] == before[i]);
            }
        }
        lemma_unlisted_key(records.drop_last(), key, counting);
    }
}

/// The files under one key are among all the files.
proof fn lemma_keyed_total_bounded(records: Seq<FileStats>, key: Seq<char>, counting: bool)
    ensures
        keyed_total(records, key, counting) <= file_total(records, counting),
    decreases records.len(),
{
    if records.len() > 0 {
        lemma_keyed_total_bounded(records.drop_last(), key, counting);
    }
}

/// A record that is no file under any of `keys` adds nothing to their total.
proof fn lemma_keys_total_unchanged(
    records: Seq<FileStats>,
    record: FileStats,
    keys: Seq<Seq<char>>,
    counting: bool,
)
    requires
        !record.is_file() || !keys.contains(extension_key(record.path@)),
    ensures
        keys_total(records.push(record), keys, counting) == keys_total(records, keys, counting),
    decreases keys.len(),
{
    if keys.len() > 0 {
        assert(records.push(record).drop_last() =~= records);
        assert(keys.last() == keys[keys.len() - 1]);
        assert forall|i: int| 0 <= i < keys.len() - 1 implies keys.drop_last()[i]
            != extension_key(record.path@) || !record.is_file() by {
            assert(keys.drop_last()[i] == keys[i]);
        }
        lemma_keys_total_unchanged(records, record, keys.drop_last(), counting);
    }
}

/// A file under one of `keys`, which differ from each other, adds its share
/// to their total.
proof fn lemma_keys_total_grows(
    records: Seq<FileStats>,
    record: FileStats,
    keys: Seq<Seq<char>>,
    counting: bool,
)
    requires
        record.is_file(),
        keys.contains(extension_key(record.path@)),
        keys.no_duplicates(),
    ensures
        keys_total(records.push(record), keys, counting) == keys_total(records, keys, counting)
            + share(record, counting),
    decreases keys.len(),
{
    let key = extension_key(record.path@);
    let rest = keys.drop_last();
    assert(records.push(record).drop_last() =~= records);
    assert(forall|i: int| 0 <= i < rest.len() ==> rest[i] == keys[i]);
    if keys.last() == key {
        lemma_keys_total_unchanged(records, record, rest, counting);
    } else {
        let at = choose|i: int| 0 <= i < keys.len() && keys[i] == key;
        assert(rest[at] == key);
        lemma_keys_total_grows(records, record, rest, counting);
    }
}

/// Every file is under exactly one of the listed keys: the totals under the
/// keys add up to the total of all files.
proof fn lemma_keys_cover(records: Seq<FileStats>, counting: bool)
    ensures
        keys_total(records, extension_keys(records), counting) == file_total(records, counting),
    decreases records.len(),
{
    if records.len() > 0 {
        let before = records.drop_last();
        let record = records.last();
        let keys = extension_keys(before);
        let key = extension_key(record.path@);
        assert(before.push(record) =~= records);
        lemma_keys_cover(before, counting);
        lemma_keys_distinct(before);
        if record.is_file() && !keys.contains(key) {
            lemma_keys_total_unchanged(before, record, keys, counting);
            lemma_unlisted_key(before, key, counting);
            assert(keys.push(key).drop_last() =~= keys);
        } else if record.is_file() {
            lemma_keys_total_grows(before, record, keys, counting);
        } else {
            lemma_keys_total_unchanged(before, record, keys, counting);
        }
    }
}

/// The entries of a summary add up as the totals under its keys do.
proof fn lemma_summed(
    summary: Seq<ExtensionSummary>,
    records: Seq<FileStats>,
    keys: Seq<Seq<char>>,
    counting: bool,
)
    requires
        summary.len() == keys.len(),
        forall|i: int|
            0 <= i < summary.len() ==> {
                &&& (#[trigger] summary[i]).count == keyed_count(records, keys[i])
                &&& summary[i].total_size == keyed_bytes(records, keys[i])
            },
    ensures
        summed(summary, counting) == keys_total(records, keys, counting),
    decreases summary.len(),
{
    if summary.len() > 0 {
        assert forall|i: int| 0 <= i < summary.len() - 1 implies {
            &&& (#[trigger] summary.drop_last()[i]).count == keyed_count(
                records,
                keys.drop_last()[i],
            )
            &&& summary.drop_last()[i].total_size == keyed_bytes(records, keys.drop_last()[i])
        } by {
            assert(summary.drop_last()[i] == summary[i]);
        }
        lemma_summed(summary.drop_last(), records, keys.drop_last(), counting);
        assert(summary.last() == summary[summary.len() - 1]);
    }
}

/// The sizes of the entries of a summary add up to the size of all files of
/// the scan that it summarizes.
pub proof fn lemma_summary_bytes(summary: Seq<ExtensionSummary>, records: Seq<FileStats>)
    requires
        summarizes(summary, records),
    ensures
        summary_bytes(summary) == file_bytes(records),
{
    lemma_summed(summary, records, extension_keys(records), false);
    lemma_keys_cover(records, false);
}

/// The counts of the entries of a summary add up to the number of files of
/// the scan that it summarizes.
pub proof fn lemma_summary_files(summary: Seq<ExtensionSummary>, records: Seq<FileStats>)
    requires
        summarizes(summary, records),
    ensures
        summary_files(summary) == count_kind(records, EntryKind::File),
{
    lemma_summed(summary, records, extension_keys(records), true);
    lemma_keys_cover(records, true);
}

/// Counting one more file keeps a summary in step with the records.
proof fn lemma_summary_step(
    before: Seq<ExtensionSummary>,
    after: Seq<ExtensionSummary>,
    records: Seq<FileStats>,
    record: FileStats,
)
    requires
        summarizes(before, records),
        record.is_file(),
        counted(before, after, extension_key(record.path@), record.size),
    ensures
        summarizes(after, records.push(record)),
{
    let key = extension_key(record.path@);
    let keys = extension_keys(records);
    let grown = records.push(record);
    let at = position_of(before, key);
    assert(grown.drop_last() =~= records);
    lemma_position(before, key);
    lemma_keys_distinct(records);
    if at < before.len() {
        assert(keys[at] == key);
        assert(extension_keys(grown) == keys);
        assert forall|i: int| 0 <= i < after.len() implies {
            &&& (#[trigger] after[i]).extension@ == keys[i]
            &&& after[i].count == keyed_count(grown, keys[i])
            &&& after[i].total_size == keyed_bytes(grown, keys[i])
        } by {
            if i != at {
                assert(after[i] == before[i]);
                assert(keys[i] != keys[at]);
            }
        }
    } else {
        assert(!keys.contains(key)) by {
            if keys.contains(key) {
                let i = choose|i: int| 0 <= i < keys.len() && keys[i] == key;
                assert(before[i].extension@ == key);
            }
        }
        assert(extension_keys(grown) == keys.push(key));
        lemma_unlisted_key(records, key, true);
        lemma_unlisted_key(records, key, false);
        assert forall|i: int| 0 <= i < after.len() implies {
            &&& (#[trigger] after[i]).extension@ == keys.push(key)[i]
            &&& after[i].count == keyed_count(grown, keys.push(key)[i])
            &&& after[i].total_size == keyed_bytes(grown, keys.push(key)[i])
        } by {
            if i < before.len() {
                assert(after.drop_last()[i] == after[i]);
                assert(keys.contains(keys[i]));
            } else {
                assert(after[i] == after.last());
            }
        }
    }
}

impl FileSystem {
    /// The files on record by extension: for each extension key one entry,
    /// with the number of files under it and the bytes in them. Directories
    /// and other entries are in no group. The entries stand in the order in
    /// which the walk first met their keys.
    pub fn get_file_types_summary(&self) -> (summary: Vec<ExtensionSummary>)
        ensures
            summarizes(summary@, self.records()),
    {
        proof {
            use_type_invariant(self);
        }
        let mut summary: Vec<ExtensionSummary> = Vec::new();
        let mut at: usize = 0;
        while at < self.stats.len()
            invariant
                at <= self.stats.len(),
                summarizes(summary@, self.stats@.take(at as int)),
                file_bytes(self.stats@) <= u64::MAX,
            decreases self.stats.len() - at,
        {
            let record = &self.stats[at];
            let ghost seen = self.stats@.take(at as int);
            proof {
                assert(self.stats@.take(at + 1) =~= seen.push(*record));
                assert(seen.push(*record).drop_last() =~= seen);
            }
            if record.is_regular_file() {
                let key = extension_key_of(record.path.as_str());
                proof {
                    lemma_position(summary@, key@);
                    lemma_keyed_total_bounded(seen, key@, true);
                    lemma_keyed_total_bounded(seen, key@, false);
                    lemma_count_kind_bounded(seen, EntryKind::File);
                    lemma_file_bytes_prefix(self.stats@, at + 1);
                }
                let ghost before = summary@;
                record_extension(&mut summary, key, record.size);
                proof {
                    lemma_summary_step(before, summary@, seen, *record);
                }
            }
            at += 1;
        }
        proof {
            assert(self.stats@.take(self.stats@.len() as int) =~= self.stats@);
        }
        summary
    }
}

/// Whether the entry at `i` stands before the entry at `j` in a listing by
/// count: the one with more files first, and of two with as many files the
/// one that stands first in `summary`.
pub open spec fn listed_before(summary: Seq<ExtensionSummary>, i: int, j: int) -> bool {
    summary[i].count > summary[j].count || (summary[i].count == summary[j].count && i < j)
}

/// `order` holds the places of all entries of `summary`, each before the
/// ones that it is listed before.
pub open spec fn listing_order(summary: Seq<ExtensionSummary>, order: Seq<int>) -> bool {
    &&& order.len() == summary.len()
    &&& forall|k: int| 0 <= k < order.len() ==> 0 <= #[trigger] order[k] < summary.len()
    &&& forall|k: int, l: int|
        0 <= k < l < order.len() ==> listed_before(summary, #[trigger] order[k], #[trigger] order[l])
}

/// The weight of each entry in a listing by count: its count.
spec fn count_weights(summary: Seq<ExtensionSummary>) -> Seq<Option<u64>> {
    Seq::new(summary.len(), |i: int| Some(summary[i].count as u64))
}

/// Each of the first `n` entries has a weight.
proof fn lemma_all_weighted(summary: Seq<ExtensionSummary>, n: int)
    requires
        0 <= n <= summary.len(),
    ensures
        ranked_below(count_weights(summary), n) == n,
    decreases n,
{
    if n > 0 {
        lemma_all_weighted(summary, n - 1);
    }
}

/// Places that differ from each other, as many as there are entries, are
/// the places of all entries.
proof fn lemma_every_place(order: Seq<int>, n: int, j: int)
    requires
        order.len() == n,
        forall|k: int| 0 <= k < order.len() ==> 0 <= #[trigger] order[k] < n,
        order.no_duplicates(),
        0 <= j < n,
    ensures
        order.contains(j),
{
    let all = vstd::set_lib::set_int_range(0, n);
    vstd::set_lib::lemma_int_range(0, n);
    order.unique_seq_to_set();
    assert(order.to_set().subset_of(all)) by {
        assert forall|place: int| order.to_set().contains(place) implies all.contains(place) by {
            let k = choose|k: int| 0 <= k < order.len() && order[k] == place;
            assert(0 <= order[k] < n);
        }
    }
    vstd::set_lib::lemma_subset_equality(order.to_set(), all);
    assert(all.contains(j));
}

/// In a listing order no place stands twice.
proof fn lemma_listing_distinct(summary: Seq<ExtensionSummary>, order: Seq<int>)
    requires
        listing_order(summary, order),
    ensures
        order.no_duplicates(),
{
    assert forall|k: int, l: int|
        0 <= k < order.len() && 0 <= l < order.len() && k != l implies order[k] != order[l] by {
        if k < l {
            assert(listed_before(summary, order[k], order[l]));
        } else {
            assert(listed_before(summary, order[l], order[k]));
        }
    }
}

/// A listing order holds all places, from the first in rank by count on.
proof fn lemma_listing_ranked(summary: Seq<ExtensionSummary>, order: Seq<int>)
    ensures
        listing_order(summary, order) <==> top_ranked(
            count_weights(summary),
            summary.len(),
            order,
        ),
{
    let weights = count_weights(summary);
    lemma_all_weighted(summary, summary.len() as int);
    assert forall|i: int, j: int|
        0 <= i < summary.len() && 0 <= j < summary.len() implies ahead(weights, i, j)
        == listed_before(summary, i, j) by {}
    if listing_order(summary, order) {
        lemma_listing_distinct(summary, order);
        assert forall|k: int, l: int| 0 <= k < l < order.len() implies ahead(
            weights,
            #[trigger] order[k],
            #[trigger] order[l],
        ) by {
            assert(listed_before(summary, order[k], order[l]));
        }
        assert forall|k: int, j: int|
            0 <= k < order.len() && 0 <= j < weights.len() && (#[trigger] weights[j]) is Some
                && !order.contains(j) implies ahead(weights, #[trigger] order[k], j) by {
            lemma_every_place(order, summary.len() as int, j);
        }
    }
    if top_ranked(weights, summary.len(), order) {
        assert forall|k: int, l: int| 0 <= k < l < order.len() implies listed_before(
            summary,
            #[trigger] order[k],
            #[trigger] order[l],
        ) by {
            assert(ahead(weights, order[k], order[l]));
        }
    }
}

/// The entries of a summary from the one with the most files down; entries
/// with as many files keep the order they stand in.
pub fn sorted_by_count(summary: &Vec<ExtensionSummary>) -> (listing: Vec<&ExtensionSummary>)
    ensures
        exists|order: Seq<int>|
            {
                &&& listing_order(summary@, order)
                &&& listing@.len() == order.len()
                &&& forall|k: int|
                    0 <= k < listing@.len() ==> *(#[trigger] listing@[k]) == summary@[order[k]]
            },
{
    let mut weights: Vec<Option<u64>> = Vec::new();
    let mut seen: usize = 0;
    while seen < summary.len()
        invariant
            seen <= summary.len(),
            weights@.len() == seen,
            forall|i: int| 0 <= i < seen ==> weights@[i] == count_weights(summary@)[i],
        decreases summary.len() - seen,
    {
        weights.push(Some(summary[seen].count as u64));
        seen += 1;
    }
    let top = top_places(&weights, summary.len());
    let ghost order = places(top@);
    proof {
        assert(weights@ =~= count_weights(summary@));
        lemma_listing_ranked(summary@, order);
    }
    let mut listing: Vec<&ExtensionSummary> = Vec::new();
    let mut k: usize = 0;
    while k < top.len()
        invariant
            k <= top.len(),
            order == places(top@),
            listing_order(summary@, order),
            listing@.len() == k,
            forall|i: int| 0 <= i < k ==> *(#[trigger] listing@[i]) == summary@[order[i]],
        decreases top.len() - k,
    {
        proof {
            assert(0 <= order[k as int] < summary@.len());
        }
        listing.push(&summary[top[k]]);
        k += 1;
    }
    listing
}

/// A summary has only one listing order: what `sorted_by_count` returns is
/// the same whenever the summary is.
pub proof fn lemma_listing_unique(summary: Seq<ExtensionSummary>, one: Seq<int>, other: Seq<int>)
    requires
        listing_order(summary, one),
        listing_order(summary, other),
    ensures
        one == other,
{
    lemma_listing_ranked(summary, one);
    lemma_listing_ranked(summary, other);
    lemma_top_unique(count_weights(summary), summary.len(), one, other);
}

} // verus!
