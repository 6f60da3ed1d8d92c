//! What a whole scan comes to. The directories of a tree are shared out
//! among the workers, each worker gathers its share, and the parts are
//! merged into one snapshot. Whatever the number of workers and whichever
//! worker a directory goes to, the snapshot holds the census of the tree:
//! every file counts once in the totals and under its category, and every
//! directory that was read has the totals of its subtree.

use crate::folders::bytes_toward;
use crate::folders::direct_counts;
use crate::folders::direct_sizes;
use crate::folders::files_toward;
use crate::folders::has_path;
use crate::folders::is_latest;
use crate::models::FileModel;
use crate::models::FolderModel;
use crate::paths::lemma_path_lt_irreflexive;
use crate::paths::lemma_path_lt_transitive;
use crate::paths::PathModel;
use crate::queries::lemma_largest_listing_falls;
use crate::queries::listed_largest;
use crate::results::gathered_files;
use crate::results::gathered_folders;
use crate::results::is_consolidated;
use crate::results::part_bytes;
use crate::results::part_bytes_in;
use crate::results::part_files;
use crate::results::part_files_in;
use crate::results::part_has;
use crate::results::parts_fit;
use crate::results::ScanResults;
use crate::results::ThreadScanResult;
use crate::seqs::lemma_models_concat;
use crate::seqs::models_of;
use crate::session::ends_as;
use crate::session::ScanEnd;
use crate::sums::lemma_sum_bounds_each;
use crate::sums::lemma_sum_concat;
use crate::sums::lemma_sum_remove;
use crate::sums::lemma_sum_update;
use crate::sums::lemma_sum_zeros;
use crate::sums::sum;
use crate::worker::census_bytes;
use crate::worker::census_bytes_in;
use crate::worker::census_bytes_within;
use crate::worker::census_files;
use crate::worker::census_files_in;
use crate::worker::census_files_within;
use crate::worker::census_holds;
use crate::worker::census_kept;
use crate::worker::census_readable;
use crate::worker::census_records;
use crate::worker::gathers;
use crate::worker::lemma_unreadable_adds_nothing;
use crate::worker::listed_once;
use crate::worker::share;
use crate::worker::ListingModel;
use vstd::multiset::Multiset;
use vstd::prelude::*;

verus! {

/// What the listings weigh together, where each weighs `weight`.
pub open spec fn weighed(listings: Seq<ListingModel>, weight: spec_fn(ListingModel) -> nat) -> nat
    decreases listings.len(),
{
    if listings.len() == 0 {
        0
    } else {
        weighed(listings.drop_last(), weight) + weight(listings.last())
    }
}

/// What the share of each of `workers` workers weighs.
pub open spec fn share_weights(
    listings: Seq<ListingModel>,
    owner: spec_fn(int) -> int,
    workers: nat,
    weight: spec_fn(ListingModel) -> nat,
) -> Seq<nat> {
    Seq::new(workers, |w: int| weighed(share(listings, owner, w), weight))
}

/// Sharing out loses nothing and counts nothing twice, whatever is
/// weighed: the shares of the workers weigh together what the listings
/// weigh.
pub proof fn lemma_weight_is_shared(
    listings: Seq<ListingModel>,
    owner: spec_fn(int) -> int,
    workers: nat,
    weight: spec_fn(ListingModel) -> nat,
)
    requires
        forall|i: int| 0 <= i < listings.len() ==> 0 <= #[trigger] owner(i) < workers,
    ensures
        sum(share_weights(listings, owner, workers, weight)) == weighed(listings, weight),
    decreases listings.len(),
{
    if listings.len() == 0 {
        lemma_sum_zeros(share_weights(listings, owner, workers, weight));
    } else {
        let earlier = listings.drop_last();
        let last = listings.last();
        let o = owner(listings.len() - 1);
        lemma_weight_is_shared(earlier, owner, workers, weight);
        let before = share_weights(earlier, owner, workers, weight);
        let grown = share(earlier, owner, o).push(last);
        assert(grown.drop_last() =~= share(earlier, owner, o));
        assert(share_weights(listings, owner, workers, weight) =~= before.update(
            o,
            before[o] + weight(last),
        ));
        lemma_sum_update(before, o, before[o] + weight(last));
    }
}

/// Two weights that agree on each of the listings weigh them alike.
proof fn lemma_weighed_alike(
    listings: Seq<ListingModel>,
    a: spec_fn(ListingModel) -> nat,
    b: spec_fn(ListingModel) -> nat,
)
    requires
        forall|i: int| 0 <= i < listings.len() ==> a(#[trigger] listings[i]) == b(listings[i]),
    ensures
        weighed(listings, a) == weighed(listings, b),
    decreases listings.len(),
{
    if listings.len() > 0 {
        let earlier = listings.drop_last();
        assert forall|i: int| 0 <= i < earlier.len() implies a(#[trigger] earlier[i]) == b(
            earlier[i],
        ) by {
            assert(earlier[i] == listings[i]);
        }
        lemma_weighed_alike(earlier, a, b);
        assert(listings.last() == listings[listings.len() - 1]);
    }
}

/// Each listing weighs no more than all together.
proof fn lemma_weighed_bounds_each(
    listings: Seq<ListingModel>,
    weight: spec_fn(ListingModel) -> nat,
    i: int,
)
    requires
        0 <= i < listings.len(),
    ensures
        weight(listings[i]) <= weighed(listings, weight),
    decreases listings.len(),
{
    if i < listings.len() - 1 {
        lemma_weighed_bounds_each(listings.drop_last(), weight, i);
    }
}

/// The bytes of a listing.
pub open spec fn bytes_of() -> spec_fn(ListingModel) -> nat {
    |l: ListingModel| l.bytes()
}

/// The number of the files of a listing.
pub open spec fn files_of() -> spec_fn(ListingModel) -> nat {
    |l: ListingModel| l.files()
}

/// One for a listing that could be read.
pub open spec fn readable_of() -> spec_fn(ListingModel) -> nat {
    |l: ListingModel| l.readable()
}

/// The bytes of a listing under `category`.
pub open spec fn bytes_in_of(category: Seq<char>) -> spec_fn(ListingModel) -> nat {
    |l: ListingModel| l.bytes_in(category)
}

/// The number of the files of a listing under `category`.
pub open spec fn files_in_of(category: Seq<char>) -> spec_fn(ListingModel) -> nat {
    |l: ListingModel| l.files_in(category)
}

/// The bytes of a listing where its directory is `d` or lies below it.
pub open spec fn bytes_within_of(d: PathModel) -> spec_fn(ListingModel) -> nat {
    |l: ListingModel|
        if l.path.is_within(d) {
            l.bytes()
        } else {
            0
        }
}

/// The number of the files of a listing where its directory is `d` or lies
/// below it.
pub open spec fn files_within_of(d: PathModel) -> spec_fn(ListingModel) -> nat {
    |l: ListingModel|
        if l.path.is_within(d) {
            l.files()
        } else {
            0
        }
}

/// One for a listing of the directory `p` that could be read.
pub open spec fn read_at(p: PathModel) -> spec_fn(ListingModel) -> nat {
    |l: ListingModel|
        if l.path == p {
            l.readable()
        } else {
            0
        }
}

/// The totals of a census are what its listings weigh.
proof fn lemma_census_is_weighed(listings: Seq<ListingModel>)
    ensures
        census_bytes(listings) == weighed(listings, bytes_of()),
        census_files(listings) == weighed(listings, files_of()),
        census_readable(listings) == weighed(listings, readable_of()),
        forall|c: Seq<char>| #[trigger]
            census_bytes_in(listings, c) == weighed(listings, bytes_in_of(c)),
        forall|c: Seq<char>| #[trigger]
            census_files_in(listings, c) == weighed(listings, files_in_of(c)),
        forall|d: PathModel| #[trigger]
            census_bytes_within(listings, d) == weighed(listings, bytes_within_of(d)),
        forall|d: PathModel| #[trigger]
            census_files_within(listings, d) == weighed(listings, files_within_of(d)),
    decreases listings.len(),
{
    if listings.len() > 0 {
        let earlier = listings.drop_last();
        lemma_census_is_weighed(earlier);
        assert forall|c: Seq<char>| #[trigger]
            census_bytes_in(listings, c) == weighed(listings, bytes_in_of(c)) by {
            assert(census_bytes_in(earlier, c) == weighed(earlier, bytes_in_of(c)));
        }
        assert forall|c: Seq<char>| #[trigger]
            census_files_in(listings, c) == weighed(listings, files_in_of(c)) by {
            assert(census_files_in(earlier, c) == weighed(earlier, files_in_of(c)));
        }
        assert forall|d: PathModel| #[trigger]
            census_bytes_within(listings, d) == weighed(listings, bytes_within_of(d)) by {
            assert(census_bytes_within(earlier, d) == weighed(earlier, bytes_within_of(d)));
        }
        assert forall|d: PathModel| #[trigger]
            census_files_within(listings, d) == weighed(listings, files_within_of(d)) by {
            assert(census_files_within(earlier, d) == weighed(earlier, files_within_of(d)));
        }
    }
}

/// The `parts` are what the workers gather where the listing at each place
/// `i` goes to the worker `owner(i)`: there is one part for each worker, and
/// each worker has gathered its share.
pub open spec fn shared_out(
    listings: Seq<ListingModel>,
    owner: spec_fn(int) -> int,
    parts: Seq<ThreadScanResult>,
) -> bool {
    &&& forall|i: int| 0 <= i < listings.len() ==> 0 <= #[trigger] owner(i) < parts.len()
    &&& forall|w: int|
        0 <= w < parts.len() ==> gathers(share(listings, owner, w), #[trigger] parts[w])
}

/// A category holds a file of the listings exactly when it holds one in the
/// share of some worker.
pub proof fn lemma_holds_is_shared(
    listings: Seq<ListingModel>,
    owner: spec_fn(int) -> int,
    workers: nat,
    category: Seq<char>,
)
    requires
        forall|i: int| 0 <= i < listings.len() ==> 0 <= #[trigger] owner(i) < workers,
    ensures
        census_holds(listings, category) <==> exists|w: int|
            0 <= w < workers && census_holds(#[trigger] share(listings, owner, w), category),
    decreases listings.len(),
{
    if listings.len() > 0 {
        let earlier = listings.drop_last();
        let last = listings.last();
        let o = owner(listings.len() - 1);
        lemma_holds_is_shared(earlier, owner, workers, category);
        let grown = share(earlier, owner, o).push(last);
        assert(grown.drop_last() =~= share(earlier, owner, o));
        if census_holds(listings, category) {
            if last.holds(category) {
                assert(census_holds(share(listings, owner, o), category));
            } else {
                let w = choose|w: int|
                    0 <= w < workers && census_holds(#[trigger] share(earlier, owner, w), category);
                assert(census_holds(share(listings, owner, w), category));
            }
        }
        if exists|w: int|
            0 <= w < workers && census_holds(#[trigger] share(listings, owner, w), category) {
            let w = choose|w: int|
                0 <= w < workers && census_holds(#[trigger] share(listings, owner, w), category);
            if w == o {
                if !last.holds(category) {
                    assert(census_holds(share(earlier, owner, w), category));
                }
            } else {
                assert(census_holds(share(earlier, owner, w), category));
            }
        }
    }
}

/// The snapshot of a scan holds the census of the tree, however the
/// directories were shared out: where each worker has gathered its share of
/// the listings and the parts were merged, the totals of the snapshot are
/// the bytes and the number of all files of all listings, each category of
/// its histogram holds the bytes and the number of the files under it, and a
/// category stands in the histogram exactly when some file falls under it.
pub proof fn lemma_snapshot_holds_the_census(
    listings: Seq<ListingModel>,
    owner: spec_fn(int) -> int,
    parts: Seq<ThreadScanResult>,
    results: ScanResults,
    scan_path: Seq<char>,
    scan_time_millis: u64,
    limit: u32,
)
    requires
        shared_out(listings, owner, parts),
        is_consolidated(parts, results, scan_path, scan_time_millis, limit),
    ensures
        results.total_size == census_bytes(listings),
        results.total_files == census_files(listings),
        forall|c: Seq<char>|
            #![trigger results.file_type_distribution.bytes_in(c)]
            results.file_type_distribution.bytes_in(c) == census_bytes_in(listings, c),
        forall|c: Seq<char>|
            #![trigger results.file_type_distribution.files_in(c)]
            results.file_type_distribution.files_in(c) == census_files_in(listings, c),
        forall|c: Seq<char>|
            #![trigger results.file_type_distribution.has(c)]
            results.file_type_distribution.has(c) <==> census_holds(listings, c),
{
    let workers = parts.len();
    let histogram = results.file_type_distribution;
    lemma_census_is_weighed(listings);
    assert forall|w: int| 0 <= w < workers implies {
        &&& census_bytes(#[trigger] share(listings, owner, w)) == weighed(
            share(listings, owner, w),
            bytes_of(),
        )
        &&& census_files(share(listings, owner, w)) == weighed(
            share(listings, owner, w),
            files_of(),
        )
    } by {
        lemma_census_is_weighed(share(listings, owner, w));
    }
    assert(part_bytes(parts) =~= share_weights(listings, owner, workers, bytes_of())) by {
        assert forall|w: int| 0 <= w < workers implies part_bytes(parts)[w] == share_weights(
            listings,
            owner,
            workers,
            bytes_of(),
        )[w] by {
            assert(gathers(share(listings, owner, w), parts[w]));
        }
    }
    assert(part_files(parts) =~= share_weights(listings, owner, workers, files_of())) by {
        assert forall|w: int| 0 <= w < workers implies part_files(parts)[w] == share_weights(
            listings,
            owner,
            workers,
            files_of(),
        )[w] by {
            assert(gathers(share(listings, owner, w), parts[w]));
        }
    }
    lemma_weight_is_shared(listings, owner, workers, bytes_of());
    lemma_weight_is_shared(listings, owner, workers, files_of());
    assert forall|c: Seq<char>|
        #![trigger histogram.bytes_in(c)]
        histogram.bytes_in(c) == census_bytes_in(listings, c) by {
        assert(part_bytes_in(parts, c) =~= share_weights(listings, owner, workers, bytes_in_of(c)))
            by {
            assert forall|w: int| 0 <= w < workers implies part_bytes_in(parts, c)[w]
                == share_weights(listings, owner, workers, bytes_in_of(c))[w] by {
                assert(gathers(share(listings, owner, w), parts[w]));
                lemma_census_is_weighed(share(listings, owner, w));
                assert(parts[w].file_type_distribution.bytes_in(c) == census_bytes_in(
                    share(listings, owner, w),
                    c,
                ));
            }
        }
        lemma_weight_is_shared(listings, owner, workers, bytes_in_of(c));
        assert(census_bytes_in(listings, c) == weighed(listings, bytes_in_of(c)));
    }
    assert forall|c: Seq<char>|
        #![trigger histogram.files_in(c)]
        histogram.files_in(c) == census_files_in(listings, c) by {
        assert(part_files_in(parts, c) =~= share_weights(listings, owner, workers, files_in_of(c)))
            by {
            assert forall|w: int| 0 <= w < workers implies part_files_in(parts, c)[w]
                == share_weights(listings, owner, workers, files_in_of(c))[w] by {
                assert(gathers(share(listings, owner, w), parts[w]));
                lemma_census_is_weighed(share(listings, owner, w));
                assert(parts[w].file_type_distribution.files_in(c) == census_files_in(
                    share(listings, owner, w),
                    c,
                ));
            }
        }
        lemma_weight_is_shared(listings, owner, workers, files_in_of(c));
        assert(census_files_in(listings, c) == weighed(listings, files_in_of(c)));
    }
    assert forall|c: Seq<char>|
        #![trigger histogram.has(c)]
        histogram.has(c) <==> census_holds(listings, c) by {
        lemma_holds_is_shared(listings, owner, workers, c);
        assert(histogram.has(c) <==> part_has(parts, workers as int, c));
        if part_has(parts, workers as int, c) {
            let r = choose|r: int|
                0 <= r < workers && (#[trigger] parts[r]).file_type_distribution.has(c);
            assert(gathers(share(listings, owner, r), parts[r]));
            assert(census_holds(share(listings, owner, r), c));
        }
        if census_holds(listings, c) {
            let w = choose|w: int|
                0 <= w < workers && census_holds(#[trigger] share(listings, owner, w), c);
            assert(gathers(share(listings, owner, w), parts[w]));
            assert(parts[w].file_type_distribution.has(c));
        }
    }
}

/// A directory that could not be read takes nothing from the rest of the
/// scan: the totals and the categories of the snapshot are those of the
/// other listings, as if the directory had not been there.
pub proof fn lemma_snapshot_skips_unreadable(
    listings: Seq<ListingModel>,
    at: int,
    owner: spec_fn(int) -> int,
    parts: Seq<ThreadScanResult>,
    results: ScanResults,
    scan_path: Seq<char>,
    scan_time_millis: u64,
    limit: u32,
)
    requires
        0 <= at < listings.len(),
        listings[at].entries is None,
        shared_out(listings, owner, parts),
        is_consolidated(parts, results, scan_path, scan_time_millis, limit),
    ensures
        results.total_size == census_bytes(listings.remove(at)),
        results.total_files == census_files(listings.remove(at)),
        forall|c: Seq<char>|
            #![trigger results.file_type_distribution.bytes_in(c)]
            results.file_type_distribution.bytes_in(c) == census_bytes_in(listings.remove(at), c),
        forall|c: Seq<char>|
            #![trigger results.file_type_distribution.files_in(c)]
            results.file_type_distribution.files_in(c) == census_files_in(listings.remove(at), c),
{
    lemma_snapshot_holds_the_census(
        listings,
        owner,
        parts,
        results,
        scan_path,
        scan_time_millis,
        limit,
    );
    lemma_unreadable_adds_nothing(listings, at);
    assert forall|c: Seq<char>|
        #![trigger results.file_type_distribution.bytes_in(c)]
        results.file_type_distribution.bytes_in(c) == census_bytes_in(listings.remove(at), c) by {
        assert(census_bytes_in(listings, c) == census_bytes_in(listings.remove(at), c));
    }
    assert forall|c: Seq<char>|
        #![trigger results.file_type_distribution.files_in(c)]
        results.file_type_distribution.files_in(c) == census_files_in(listings.remove(at), c) by {
        assert(census_files_in(listings, c) == census_files_in(listings.remove(at), c));
    }
}

/// What each of the records weighs.
pub open spec fn record_weights(records: Seq<FolderModel>, weight: spec_fn(FolderModel) -> nat) -> Seq<
    nat,
> {
    Seq::new(records.len(), |i: int| weight(records[i]))
}

/// What the records of a listing weigh together.
pub open spec fn records_weight(weight: spec_fn(FolderModel) -> nat) -> spec_fn(ListingModel) -> nat {
    |l: ListingModel| sum(record_weights(l.records(), weight))
}

/// What the records of each part weigh together.
pub open spec fn part_record_weights(
    parts: Seq<ThreadScanResult>,
    weight: spec_fn(FolderModel) -> nat,
) -> Seq<nat> {
    Seq::new(parts.len(), |w: int| sum(record_weights(models_of(parts[w].folders@), weight)))
}

/// The bytes of a record.
pub open spec fn size_of() -> spec_fn(FolderModel) -> nat {
    |r: FolderModel| r.size as nat
}

/// The number of the files of a record.
pub open spec fn count_of() -> spec_fn(FolderModel) -> nat {
    |r: FolderModel| r.file_count as nat
}

/// One for each record.
pub open spec fn one_each() -> spec_fn(FolderModel) -> nat {
    |r: FolderModel| 1nat
}

/// The bytes of a record where its directory is `d` or lies below it.
pub open spec fn size_within(d: PathModel) -> spec_fn(FolderModel) -> nat {
    |r: FolderModel|
        if r.path.is_within(d) {
            r.size as nat
        } else {
            0
        }
}

/// The number of the files of a record where its directory is `d` or lies
/// below it.
pub open spec fn count_within(d: PathModel) -> spec_fn(FolderModel) -> nat {
    |r: FolderModel|
        if r.path.is_within(d) {
            r.file_count as nat
        } else {
            0
        }
}

/// One for a record of the directory `p`.
pub open spec fn at_path(p: PathModel) -> spec_fn(FolderModel) -> nat {
    |r: FolderModel|
        if r.path == p {
            1nat
        } else {
            0nat
        }
}

/// Records laid end to end weigh what they weigh apart.
proof fn lemma_record_weights_concat(
    a: Seq<FolderModel>,
    b: Seq<FolderModel>,
    weight: spec_fn(FolderModel) -> nat,
)
    ensures
        sum(record_weights(a + b, weight)) == sum(record_weights(a, weight)) + sum(
            record_weights(b, weight),
        ),
{
    assert(record_weights(a + b, weight) =~= record_weights(a, weight) + record_weights(b, weight));
    lemma_sum_concat(record_weights(a, weight), record_weights(b, weight));
}

/// A listing that could be read has one record, which weighs what it
/// weighs; another has none.
proof fn lemma_records_weight(l: ListingModel, weight: spec_fn(FolderModel) -> nat)
    ensures
        records_weight(weight)(l) == match l.entries {
            Some(entries) => weight(l.records()[0]),
            None => 0,
        },
{
    let weights = record_weights(l.records(), weight);
    if l.entries is Some {
        assert(weights.drop_last() =~= Seq::<nat>::empty());
        assert(sum(weights.drop_last()) == 0);
    }
}

/// The records of a census weigh what the records of its listings weigh.
proof fn lemma_census_records_weigh(
    listings: Seq<ListingModel>,
    weight: spec_fn(FolderModel) -> nat,
)
    ensures
        sum(record_weights(census_records(listings), weight)) == weighed(
            listings,
            records_weight(weight),
        ),
    decreases listings.len(),
{
    if listings.len() > 0 {
        lemma_census_records_weigh(listings.drop_last(), weight);
        lemma_record_weights_concat(
            census_records(listings.drop_last()),
            listings.last().records(),
            weight,
        );
    }
}

/// The records of all parts weigh what the records of each part weigh.
proof fn lemma_gathered_weigh(parts: Seq<ThreadScanResult>, weight: spec_fn(FolderModel) -> nat)
    ensures
        sum(record_weights(models_of(gathered_folders(parts)), weight)) == sum(
            part_record_weights(parts, weight),
        ),
    decreases parts.len(),
{
    if parts.len() > 0 {
        let earlier = parts.drop_last();
        lemma_gathered_weigh(earlier, weight);
        lemma_models_concat(gathered_folders(earlier), parts.last().folders@);
        lemma_record_weights_concat(
            models_of(gathered_folders(earlier)),
            models_of(parts.last().folders@),
            weight,
        );
        assert(part_record_weights(parts, weight).drop_last() =~= part_record_weights(
            earlier,
            weight,
        ));
    }
}

/// The records that the workers gathered weigh what the records of the
/// listings weigh, however the listings were shared out.
proof fn lemma_gathered_records_weigh(
    listings: Seq<ListingModel>,
    owner: spec_fn(int) -> int,
    parts: Seq<ThreadScanResult>,
    weight: spec_fn(FolderModel) -> nat,
)
    requires
        shared_out(listings, owner, parts),
    ensures
        sum(record_weights(models_of(gathered_folders(parts)), weight)) == weighed(
            listings,
            records_weight(weight),
        ),
{
    let workers = parts.len();
    lemma_gathered_weigh(parts, weight);
    assert(part_record_weights(parts, weight) =~= share_weights(
        listings,
        owner,
        workers,
        records_weight(weight),
    )) by {
        assert forall|w: int| 0 <= w < workers implies part_record_weights(parts, weight)[w]
            == share_weights(listings, owner, workers, records_weight(weight))[w] by {
            assert(gathers(share(listings, owner, w), parts[w]));
            lemma_census_records_weigh(share(listings, owner, w), weight);
        }
    }
    lemma_weight_is_shared(listings, owner, workers, records_weight(weight));
}

/// Listings that all weigh nothing weigh nothing together.
proof fn lemma_weighed_nothing(listings: Seq<ListingModel>, weight: spec_fn(ListingModel) -> nat)
    requires
        forall|i: int| 0 <= i < listings.len() ==> weight(#[trigger] listings[i]) == 0,
    ensures
        weighed(listings, weight) == 0,
    decreases listings.len(),
{
    if listings.len() > 0 {
        let earlier = listings.drop_last();
        assert forall|i: int| 0 <= i < earlier.len() implies weight(#[trigger] earlier[i]) == 0 by {
            assert(earlier[i] == listings[i]);
        }
        lemma_weighed_nothing(earlier, weight);
        assert(listings.last() == listings[listings.len() - 1]);
    }
}

/// Where each directory is listed once, at most one listing of a directory
/// could be read.
proof fn lemma_read_once(listings: Seq<ListingModel>, p: PathModel)
    requires
        listed_once(listings),
    ensures
        weighed(listings, read_at(p)) <= 1,
    decreases listings.len(),
{
    if listings.len() > 0 {
        let earlier = listings.drop_last();
        let last = listings.len() - 1;
        assert forall|i: int, j: int| 0 <= i < j < earlier.len() implies (#[trigger] earlier[i]).path
            != (#[trigger] earlier[j]).path by {
            assert(earlier[i] == listings[i] && earlier[j] == listings[j]);
        }
        if listings[last].path == p {
            assert forall|i: int| 0 <= i < earlier.len() implies read_at(p)(#[trigger] earlier[i])
                == 0 by {
                assert(earlier[i] == listings[i]);
                assert(listings[i].path != listings[last].path);
            }
            lemma_weighed_nothing(earlier, read_at(p));
        } else {
            lemma_read_once(earlier, p);
        }
    }
}

/// The records of the directory `p` among those that the workers gathered
/// are as many as the listings of `p` that could be read.
proof fn lemma_gathered_at_path(
    listings: Seq<ListingModel>,
    owner: spec_fn(int) -> int,
    parts: Seq<ThreadScanResult>,
    p: PathModel,
)
    requires
        shared_out(listings, owner, parts),
    ensures
        sum(record_weights(models_of(gathered_folders(parts)), at_path(p))) == weighed(
            listings,
            read_at(p),
        ),
{
    lemma_gathered_records_weigh(listings, owner, parts, at_path(p));
    assert forall|i: int| 0 <= i < listings.len() implies records_weight(at_path(p))(
        #[trigger] listings[i],
    ) == read_at(p)(listings[i]) by {
        lemma_records_weight(listings[i], at_path(p));
    }
    lemma_weighed_alike(listings, records_weight(at_path(p)), read_at(p));
}

/// Where each directory is listed once, the workers gather one record for
/// each directory and no two for the same, however the directories were
/// shared out.
pub proof fn lemma_gathered_once(
    listings: Seq<ListingModel>,
    owner: spec_fn(int) -> int,
    parts: Seq<ThreadScanResult>,
)
    requires
        listed_once(listings),
        shared_out(listings, owner, parts),
    ensures
        forall|a: int, b: int|
            0 <= a < b < gathered_folders(parts).len() ==> (#[trigger] models_of(
                gathered_folders(parts),
            )[a]).path != (#[trigger] models_of(gathered_folders(parts))[b]).path,
{
    let records = models_of(gathered_folders(parts));
    assert forall|a: int, b: int| 0 <= a < b < records.len() implies (#[trigger] records[a]).path
        != (#[trigger] records[b]).path by {
        if records[a].path == records[b].path {
            let p = records[a].path;
            let marks = record_weights(records, at_path(p));
            lemma_gathered_at_path(listings, owner, parts, p);
            lemma_read_once(listings, p);
            lemma_sum_remove(marks, b);
            assert(marks.remove(b)[a] == marks[a]);
            lemma_sum_bounds_each(marks.remove(b), a);
            assert(marks[a] == 1 && marks[b] == 1);
        }
    }
}

/// Where the bytes and the files of the census fit their types, so do those
/// of each listing.
proof fn lemma_each_fits(listings: Seq<ListingModel>, i: int)
    requires
        0 <= i < listings.len(),
    ensures
        listings[i].bytes() <= census_bytes(listings),
        listings[i].files() <= census_files(listings),
{
    lemma_census_is_weighed(listings);
    lemma_weighed_bounds_each(listings, bytes_of(), i);
    lemma_weighed_bounds_each(listings, files_of(), i);
}

/// What the workers gathered for the directory `d` and everything below it
/// is the census of that subtree: where each directory is listed once and
/// the totals fit their types, the records of all workers together hold for
/// `d` the bytes and the number of all files in `d` and anywhere below it.
pub proof fn lemma_gathered_totals_cover_subtree(
    listings: Seq<ListingModel>,
    owner: spec_fn(int) -> int,
    parts: Seq<ThreadScanResult>,
    d: PathModel,
)
    requires
        listed_once(listings),
        shared_out(listings, owner, parts),
        census_bytes(listings) <= u64::MAX,
        census_files(listings) <= u32::MAX,
    ensures
        crate::folders::recursive_bytes(models_of(gathered_folders(parts)), d)
            == census_bytes_within(listings, d),
        crate::folders::recursive_files(models_of(gathered_folders(parts)), d)
            == census_files_within(listings, d),
{
    let records = models_of(gathered_folders(parts));
    lemma_gathered_once(listings, owner, parts);
    assert forall|k: int| 0 <= k < records.len() implies is_latest(records, k) by {}
    assert(bytes_toward(records, d) =~= record_weights(records, size_within(d)));
    assert(files_toward(records, d) =~= record_weights(records, count_within(d)));
    lemma_gathered_records_weigh(listings, owner, parts, size_within(d));
    lemma_gathered_records_weigh(listings, owner, parts, count_within(d));
    assert forall|i: int| 0 <= i < listings.len() implies records_weight(size_within(d))(
        #[trigger] listings[i],
    ) == bytes_within_of(d)(listings[i]) && records_weight(count_within(d))(listings[i])
        == files_within_of(d)(listings[i]) by {
        lemma_records_weight(listings[i], size_within(d));
        lemma_records_weight(listings[i], count_within(d));
        lemma_each_fits(listings, i);
    }
    lemma_weighed_alike(listings, records_weight(size_within(d)), bytes_within_of(d));
    lemma_weighed_alike(listings, records_weight(count_within(d)), files_within_of(d));
    lemma_census_is_weighed(listings);
}

/// Ones add up to their number.
proof fn lemma_sum_ones(s: Seq<nat>)
    requires
        forall|i: int| 0 <= i < s.len() ==> s[i] == 1,
    ensures
        sum(s) == s.len(),
    decreases s.len(),
{
    if s.len() > 0 {
        lemma_sum_ones(s.drop_last());
    }
}

/// The workers gather as many records as directories could be read, and
/// records that hold together the bytes and the files of the census.
proof fn lemma_gathered_sums(
    listings: Seq<ListingModel>,
    owner: spec_fn(int) -> int,
    parts: Seq<ThreadScanResult>,
)
    requires
        shared_out(listings, owner, parts),
        census_bytes(listings) <= u64::MAX,
        census_files(listings) <= u32::MAX,
    ensures
        gathered_folders(parts).len() == census_readable(listings),
        sum(direct_sizes(models_of(gathered_folders(parts)))) == census_bytes(listings),
        sum(direct_counts(models_of(gathered_folders(parts)))) == census_files(listings),
{
    let records = models_of(gathered_folders(parts));
    lemma_census_is_weighed(listings);
    lemma_gathered_records_weigh(listings, owner, parts, one_each());
    lemma_gathered_records_weigh(listings, owner, parts, size_of());
    lemma_gathered_records_weigh(listings, owner, parts, count_of());
    assert forall|i: int| 0 <= i < listings.len() implies {
        &&& records_weight(one_each())(#[trigger] listings[i]) == readable_of()(listings[i])
        &&& records_weight(size_of())(listings[i]) == bytes_of()(listings[i])
        &&& records_weight(count_of())(listings[i]) == files_of()(listings[i])
    } by {
        lemma_records_weight(listings[i], one_each());
        lemma_records_weight(listings[i], size_of());
        lemma_records_weight(listings[i], count_of());
        lemma_each_fits(listings, i);
    }
    lemma_weighed_alike(listings, records_weight(one_each()), readable_of());
    lemma_weighed_alike(listings, records_weight(size_of()), bytes_of());
    lemma_weighed_alike(listings, records_weight(count_of()), files_of());
    lemma_sum_ones(record_weights(records, one_each()));
    assert(direct_sizes(records) =~= record_weights(records, size_of()));
    assert(direct_counts(records) =~= record_weights(records, count_of()));
}

/// The folders of the snapshot of a scan are the directories that were
/// read, each with the totals of its subtree: where each directory is
/// listed once, each worker has gathered its share and the parts were
/// merged, every folder of the snapshot holds the bytes and the number of
/// all files in its directory and anywhere below it, at any depth; every
/// directory that could be read has such a folder, the root among them; and
/// no folder stands for anything else. This holds however many workers
/// there were and whichever worker a directory went to.
pub proof fn lemma_snapshot_folders_cover_subtrees(
    listings: Seq<ListingModel>,
    owner: spec_fn(int) -> int,
    parts: Seq<ThreadScanResult>,
    results: ScanResults,
    scan_path: Seq<char>,
    scan_time_millis: u64,
    limit: u32,
)
    requires
        listed_once(listings),
        shared_out(listings, owner, parts),
        is_consolidated(parts, results, scan_path, scan_time_millis, limit),
    ensures
        models_of(results.folders@) == models_of(results.all_folders@),
        results.total_folders == census_readable(listings),
        forall|k: int|
            0 <= k < results.all_folders@.len() ==> {
                let folder = #[trigger] models_of(results.all_folders@)[k];
                &&& folder.size == census_bytes_within(listings, folder.path)
                &&& folder.file_count == census_files_within(listings, folder.path)
                &&& exists|i: int|
                    0 <= i < listings.len() && (#[trigger] listings[i]).entries is Some
                        && listings[i].path == folder.path
            },
        forall|i: int|
            0 <= i < listings.len() && (#[trigger] listings[i]).entries is Some ==> has_path(
                models_of(results.all_folders@),
                listings[i].path,
            ),
{
    let records = models_of(gathered_folders(parts));
    let folders = models_of(results.all_folders@);
    lemma_snapshot_holds_the_census(
        listings,
        owner,
        parts,
        results,
        scan_path,
        scan_time_millis,
        limit,
    );
    lemma_gathered_sums(listings, owner, parts);
    assert forall|k: int| 0 <= k < folders.len() implies {
        let folder = #[trigger] folders[k];
        &&& folder.size == census_bytes_within(listings, folder.path)
        &&& folder.file_count == census_files_within(listings, folder.path)
        &&& exists|i: int|
            0 <= i < listings.len() && (#[trigger] listings[i]).entries is Some && listings[i].path
                == folder.path
    } by {
        let p = folders[k].path;
        lemma_gathered_totals_cover_subtree(listings, owner, parts, p);
        assert(has_path(records, p));
        let j = choose|j: int| 0 <= j < records.len() && (#[trigger] records[j]).path == p;
        let marks = record_weights(records, at_path(p));
        lemma_gathered_at_path(listings, owner, parts, p);
        lemma_sum_bounds_each(marks, j);
        if forall|i: int| 0 <= i < listings.len() ==> read_at(p)(#[trigger] listings[i]) == 0 {
            lemma_weighed_nothing(listings, read_at(p));
        }
        let i = choose|i: int| 0 <= i < listings.len() && read_at(p)(#[trigger] listings[i]) != 0;
        assert(listings[i].entries is Some && listings[i].path == p);
    }
    assert forall|i: int|
        0 <= i < listings.len() && (#[trigger] listings[i]).entries is Some implies has_path(
        folders,
        listings[i].path,
    ) by {
        let p = listings[i].path;
        let marks = record_weights(records, at_path(p));
        lemma_gathered_at_path(listings, owner, parts, p);
        lemma_weighed_bounds_each(listings, read_at(p), i);
        if forall|k: int| 0 <= k < marks.len() ==> marks[k] == 0 {
            lemma_sum_zeros(marks);
        }
        let k = choose|k: int| 0 <= k < marks.len() && marks[k] != 0;
        assert(records[k].path == p);
        assert(has_path(folders, records[k].path));
    }
}

/// The items of all the collections of `pools` together.
pub open spec fn pooled(pools: Seq<Multiset<FileModel>>) -> Multiset<FileModel>
    decreases pools.len(),
{
    if pools.len() == 0 {
        Multiset::empty()
    } else {
        pooled(pools.drop_last()).add(pools.last())
    }
}

/// The files that each of `workers` workers keeps, whatever their order.
pub open spec fn share_kept(
    listings: Seq<ListingModel>,
    owner: spec_fn(int) -> int,
    workers: nat,
) -> Seq<Multiset<FileModel>> {
    Seq::new(workers, |w: int| census_kept(share(listings, owner, w)).to_multiset())
}

/// The files that each part holds, whatever their order.
pub open spec fn part_kept(parts: Seq<ThreadScanResult>) -> Seq<Multiset<FileModel>> {
    Seq::new(parts.len(), |w: int| models_of(parts[w].files@).to_multiset())
}

/// Two lists laid end to end hold the items of both.
proof fn lemma_concat_holds_both(a: Seq<FileModel>, b: Seq<FileModel>)
    ensures
        (a + b).to_multiset() == a.to_multiset().add(b.to_multiset()),
    decreases b.len(),
{
    if b.len() == 0 {
        assert(a + b =~= a);
        assert(b.to_multiset() =~= Multiset::<FileModel>::empty()) by {
            b.to_multiset_ensures();
        }
        assert(a.to_multiset().add(b.to_multiset()) =~= a.to_multiset());
    } else {
        let fewer = b.drop_last();
        lemma_concat_holds_both(a, fewer);
        assert(a + b =~= (a + fewer).push(b.last()));
        assert(b =~= fewer.push(b.last()));
        vstd::seq_lib::to_multiset_build(a + fewer, b.last());
        vstd::seq_lib::to_multiset_build(fewer, b.last());
        assert((a + b).to_multiset() =~= a.to_multiset().add(b.to_multiset()));
    }
}

/// Adding items to one of the collections adds them to all together.
proof fn lemma_pooled_update(pools: Seq<Multiset<FileModel>>, i: int, more: Multiset<FileModel>)
    requires
        0 <= i < pools.len(),
    ensures
        pooled(pools.update(i, pools[i].add(more))) == pooled(pools).add(more),
    decreases pools.len(),
{
    let grown = pools.update(i, pools[i].add(more));
    if i == pools.len() - 1 {
        assert(grown.drop_last() =~= pools.drop_last());
        assert(pooled(grown) =~= pooled(pools).add(more));
    } else {
        assert(grown.drop_last() =~= pools.drop_last().update(i, pools[i].add(more)));
        assert(pools.drop_last()[i] == pools[i]);
        lemma_pooled_update(pools.drop_last(), i, more);
        assert(pooled(grown) =~= pooled(pools).add(more));
    }
}

/// Empty collections hold nothing together.
proof fn lemma_pooled_nothing(pools: Seq<Multiset<FileModel>>)
    requires
        forall|i: int| 0 <= i < pools.len() ==> pools[i] == Multiset::<FileModel>::empty(),
    ensures
        pooled(pools) == Multiset::<FileModel>::empty(),
    decreases pools.len(),
{
    if pools.len() > 0 {
        lemma_pooled_nothing(pools.drop_last());
        assert(pooled(pools) =~= Multiset::<FileModel>::empty());
    }
}

/// Sharing out loses no file and keeps none twice: the files that the
/// workers keep are together the files that are kept of all listings,
/// whatever their order.
pub proof fn lemma_kept_files_are_shared(
    listings: Seq<ListingModel>,
    owner: spec_fn(int) -> int,
    workers: nat,
)
    requires
        forall|i: int| 0 <= i < listings.len() ==> 0 <= #[trigger] owner(i) < workers,
    ensures
        pooled(share_kept(listings, owner, workers)) == census_kept(listings).to_multiset(),
    decreases listings.len(),
{
    if listings.len() == 0 {
        assert forall|w: int| 0 <= w < workers implies share_kept(listings, owner, workers)[w]
            == Multiset::<FileModel>::empty() by {
            census_kept(share(listings, owner, w)).to_multiset_ensures();
            assert(census_kept(share(listings, owner, w)).to_multiset() =~= Multiset::<
                FileModel,
            >::empty());
        }
        lemma_pooled_nothing(share_kept(listings, owner, workers));
        census_kept(listings).to_multiset_ensures();
        assert(census_kept(listings).to_multiset() =~= Multiset::<FileModel>::empty());
    } else {
        let earlier = listings.drop_last();
        let last = listings.last();
        let o = owner(listings.len() - 1);
        lemma_kept_files_are_shared(earlier, owner, workers);
        let before = share_kept(earlier, owner, workers);
        let grown = share(earlier, owner, o).push(last);
        assert(grown.drop_last() =~= share(earlier, owner, o));
        lemma_concat_holds_both(census_kept(share(earlier, owner, o)), last.kept());
        lemma_concat_holds_both(census_kept(earlier), last.kept());
        assert(share_kept(listings, owner, workers) =~= before.update(
            o,
            before[o].add(last.kept().to_multiset()),
        ));
        lemma_pooled_update(before, o, last.kept().to_multiset());
    }
}

/// The files of all parts are the files of each part together.
proof fn lemma_gathered_files_pooled(parts: Seq<ThreadScanResult>)
    ensures
        models_of(gathered_files(parts)).to_multiset() == pooled(part_kept(parts)),
    decreases parts.len(),
{
    if parts.len() == 0 {
        let none = models_of(gathered_files(parts));
        none.to_multiset_ensures();
        assert(none.to_multiset() =~= Multiset::<FileModel>::empty());
    } else {
        let earlier = parts.drop_last();
        lemma_gathered_files_pooled(earlier);
        lemma_models_concat(gathered_files(earlier), parts.last().files@);
        lemma_concat_holds_both(
            models_of(gathered_files(earlier)),
            models_of(parts.last().files@),
        );
        assert(part_kept(parts).drop_last() =~= part_kept(earlier));
    }
}

/// The files that a scan gathers are the files that are kept of the tree,
/// each as often as it is listed and whatever their order, however the
/// directories were shared out.
pub proof fn lemma_gathered_files_are_the_kept(
    listings: Seq<ListingModel>,
    owner: spec_fn(int) -> int,
    parts: Seq<ThreadScanResult>,
)
    requires
        shared_out(listings, owner, parts),
    ensures
        models_of(gathered_files(parts)).to_multiset() == census_kept(
            listings,
        ).to_multiset(),
{
    lemma_gathered_files_pooled(parts);
    assert(part_kept(parts) =~= share_kept(listings, owner, parts.len())) by {
        assert forall|w: int| 0 <= w < parts.len() implies part_kept(parts)[w] == share_kept(
            listings,
            owner,
            parts.len(),
        )[w] by {
            assert(gathers(share(listings, owner, w), parts[w]));
        }
    }
    lemma_kept_files_are_shared(listings, owner, parts.len());
}

/// Two lists of folders in the order of their paths that name the same
/// directories name them at the same places.
proof fn lemma_same_paths_same_order(a: Seq<FolderModel>, b: Seq<FolderModel>)
    requires
        forall|i: int, j: int|
            0 <= i < j < a.len() ==> (#[trigger] a[i]).path.lt((#[trigger] a[j]).path),
        forall|i: int, j: int|
            0 <= i < j < b.len() ==> (#[trigger] b[i]).path.lt((#[trigger] b[j]).path),
        forall|k: int| 0 <= k < a.len() ==> has_path(b, (#[trigger] a[k]).path),
        forall|k: int| 0 <= k < b.len() ==> has_path(a, (#[trigger] b[k]).path),
    ensures
        a.len() == b.len(),
        forall|k: int| 0 <= k < a.len() ==> (#[trigger] a[k]).path == b[k].path,
    decreases a.len(),
{
    if a.len() == 0 {
        if b.len() > 0 {
            assert(has_path(a, b[0].path));
        }
    } else {
        let la = a.len() - 1;
        assert(has_path(b, a[la].path));
        let lb = b.len() - 1;
        assert(has_path(a, b[lb].path));
        let i = choose|i: int| 0 <= i < a.len() && (#[trigger] a[i]).path == b[lb].path;
        let j = choose|j: int| 0 <= j < b.len() && (#[trigger] b[j]).path == a[la].path;
        lemma_path_lt_irreflexive(a[la].path);
        if i < la {
            assert(a[i].path.lt(a[la].path));
            if j < lb {
                assert(b[j].path.lt(b[lb].path));
                lemma_path_lt_transitive(b[lb].path, a[la].path, b[lb].path);
                lemma_path_lt_irreflexive(b[lb].path);
            }
        }
        assert(a[la].path == b[lb].path);
        let fewer_a = a.drop_last();
        let fewer_b = b.drop_last();
        assert forall|k: int| 0 <= k < fewer_a.len() implies has_path(
            fewer_b,
            (#[trigger] fewer_a[k]).path,
        ) by {
            assert(fewer_a[k] == a[k]);
            assert(has_path(b, a[k].path));
            let at = choose|at: int| 0 <= at < b.len() && (#[trigger] b[at]).path == a[k].path;
            assert(a[k].path.lt(a[la].path));
            assert(fewer_b[at] == b[at]);
        }
        assert forall|k: int| 0 <= k < fewer_b.len() implies has_path(
            fewer_a,
            (#[trigger] fewer_b[k]).path,
        ) by {
            assert(fewer_b[k] == b[k]);
            assert(has_path(a, b[k].path));
            let at = choose|at: int| 0 <= at < a.len() && (#[trigger] a[at]).path == b[k].path;
            assert(b[k].path.lt(b[lb].path));
            lemma_path_lt_irreflexive(b[lb].path);
            assert(fewer_a[at] == a[at]);
        }
        assert forall|x: int, y: int| 0 <= x < y < fewer_a.len() implies (
        #[trigger] fewer_a[x]).path.lt((#[trigger] fewer_a[y]).path) by {
            assert(fewer_a[x] == a[x] && fewer_a[y] == a[y]);
        }
        assert forall|x: int, y: int| 0 <= x < y < fewer_b.len() implies (
        #[trigger] fewer_b[x]).path.lt((#[trigger] fewer_b[y]).path) by {
            assert(fewer_b[x] == b[x] && fewer_b[y] == b[y]);
        }
        lemma_same_paths_same_order(fewer_a, fewer_b);
        assert forall|k: int| 0 <= k < a.len() implies (#[trigger] a[k]).path == b[k].path by {
            if k < la {
                assert(fewer_a[k] == a[k] && fewer_b[k] == b[k]);
            }
        }
    }
}

/// The number of workers does not matter: two scans of the same listings,
/// with any numbers of workers and the directories shared out in any two
/// ways, end with the same totals and the same bytes and files under every
/// category, gather the same files, whatever their order, and, where each
/// directory is listed once, end with the same list of folders.
pub proof fn lemma_worker_count_does_not_matter(
    listings: Seq<ListingModel>,
    one_owner: spec_fn(int) -> int,
    one_parts: Seq<ThreadScanResult>,
    one: ScanResults,
    other_owner: spec_fn(int) -> int,
    other_parts: Seq<ThreadScanResult>,
    other: ScanResults,
    scan_path: Seq<char>,
    one_millis: u64,
    other_millis: u64,
    limit: u32,
)
    requires
        shared_out(listings, one_owner, one_parts),
        shared_out(listings, other_owner, other_parts),
        is_consolidated(one_parts, one, scan_path, one_millis, limit),
        is_consolidated(other_parts, other, scan_path, other_millis, limit),
    ensures
        one.total_size == other.total_size,
        one.total_files == other.total_files,
        forall|c: Seq<char>|
            one.file_type_distribution.bytes_in(c) == #[trigger] other.file_type_distribution.bytes_in(
                c,
            ),
        forall|c: Seq<char>|
            one.file_type_distribution.files_in(c) == #[trigger] other.file_type_distribution.files_in(
                c,
            ),
        forall|c: Seq<char>|
            one.file_type_distribution.has(c) == #[trigger] other.file_type_distribution.has(c),
        one.total_folders == other.total_folders,
        models_of(gathered_files(one_parts)).to_multiset() == models_of(
            gathered_files(other_parts),
        ).to_multiset(),
        listed_once(listings) ==> models_of(one.all_folders@) == models_of(other.all_folders@)
            && models_of(one.folders@) == models_of(other.folders@),
{
    lemma_gathered_files_are_the_kept(listings, one_owner, one_parts);
    lemma_gathered_files_are_the_kept(listings, other_owner, other_parts);
    lemma_snapshot_holds_the_census(
        listings,
        one_owner,
        one_parts,
        one,
        scan_path,
        one_millis,
        limit,
    );
    lemma_snapshot_holds_the_census(
        listings,
        other_owner,
        other_parts,
        other,
        scan_path,
        other_millis,
        limit,
    );
    assert forall|c: Seq<char>|
        one.file_type_distribution.bytes_in(c) == #[trigger] other.file_type_distribution.bytes_in(
            c,
        ) by {
        assert(one.file_type_distribution.bytes_in(c) == census_bytes_in(listings, c));
    }
    assert forall|c: Seq<char>|
        one.file_type_distribution.files_in(c) == #[trigger] other.file_type_distribution.files_in(
            c,
        ) by {
        assert(one.file_type_distribution.files_in(c) == census_files_in(listings, c));
    }
    assert forall|c: Seq<char>|
        one.file_type_distribution.has(c) == #[trigger] other.file_type_distribution.has(c) by {
        assert(one.file_type_distribution.has(c) <==> census_holds(listings, c));
    }
    lemma_gathered_sums(listings, one_owner, one_parts);
    lemma_gathered_sums(listings, other_owner, other_parts);
    if listed_once(listings) {
        let a = models_of(one.all_folders@);
        let b = models_of(other.all_folders@);
        lemma_snapshot_folders_cover_subtrees(
            listings,
            one_owner,
            one_parts,
            one,
            scan_path,
            one_millis,
            limit,
        );
        lemma_snapshot_folders_cover_subtrees(
            listings,
            other_owner,
            other_parts,
            other,
            scan_path,
            other_millis,
            limit,
        );
        assert forall|k: int| 0 <= k < a.len() implies has_path(b, (#[trigger] a[k]).path) by {
            let i = choose|i: int|
                0 <= i < listings.len() && (#[trigger] listings[i]).entries is Some
                    && listings[i].path == a[k].path;
            assert(has_path(b, listings[i].path));
        }
        assert forall|k: int| 0 <= k < b.len() implies has_path(a, (#[trigger] b[k]).path) by {
            let i = choose|i: int|
                0 <= i < listings.len() && (#[trigger] listings[i]).entries is Some
                    && listings[i].path == b[k].path;
            assert(has_path(a, listings[i].path));
        }
        lemma_same_paths_same_order(a, b);
        assert(a =~= b);
    }
}

/// A scan that was not asked to stop, whose root could be listed and
/// whose census fits the types of the snapshot, goes through, and its
/// snapshot holds the census: the command answers without an error, the
/// closing event is that of a completed scan, and the totals of the
/// snapshot are the bytes and the number of all files of all listings and
/// the number of the directories that could be read, whatever the number of
/// workers.
pub proof fn lemma_scan_ends_with_the_census(
    before: ScanResults,
    listings: Seq<ListingModel>,
    owner: spec_fn(int) -> int,
    parts: Seq<ThreadScanResult>,
    scan_time_millis: u64,
    estimated_total_size: u64,
    limit: u32,
    after: ScanResults,
    ended: ScanEnd,
)
    requires
        !before.cancellation_flag,
        shared_out(listings, owner, parts),
        census_bytes(listings) <= u64::MAX,
        census_files(listings) <= u32::MAX,
        census_readable(listings) <= u32::MAX,
        ends_as(
            before,
            parts,
            true,
            scan_time_millis,
            estimated_total_size,
            limit,
            after,
            ended,
        ),
    ensures
        ended.outcome is Ok,
        ended.event matches Some(event) && event@.current_path == "Scan completed!"@
            && event@.total_size == census_bytes(listings) && event@.files_analyzed
            == census_files(listings),
        is_consolidated(parts, after, before.scan_path@, scan_time_millis, limit),
        after.total_size == census_bytes(listings),
        after.total_files == census_files(listings),
        after.total_folders == census_readable(listings),
{
    lemma_gathered_sums(listings, owner, parts);
    lemma_parts_hold_the_census(listings, owner, parts);
    assert(parts_fit(parts));
}

/// What the parts hold together is the census, whether or not it fits the
/// types of the snapshot.
proof fn lemma_parts_hold_the_census(
    listings: Seq<ListingModel>,
    owner: spec_fn(int) -> int,
    parts: Seq<ThreadScanResult>,
)
    requires
        shared_out(listings, owner, parts),
    ensures
        sum(part_bytes(parts)) == census_bytes(listings),
        sum(part_files(parts)) == census_files(listings),
        gathered_folders(parts).len() == census_readable(listings),
{
    let workers = parts.len();
    let records = models_of(gathered_folders(parts));
    lemma_census_is_weighed(listings);
    assert(part_bytes(parts) =~= share_weights(listings, owner, workers, bytes_of())) by {
        assert forall|w: int| 0 <= w < workers implies part_bytes(parts)[w] == share_weights(
            listings,
            owner,
            workers,
            bytes_of(),
        )[w] by {
            assert(gathers(share(listings, owner, w), parts[w]));
            lemma_census_is_weighed(share(listings, owner, w));
        }
    }
    assert(part_files(parts) =~= share_weights(listings, owner, workers, files_of())) by {
        assert forall|w: int| 0 <= w < workers implies part_files(parts)[w] == share_weights(
            listings,
            owner,
            workers,
            files_of(),
        )[w] by {
            assert(gathers(share(listings, owner, w), parts[w]));
            lemma_census_is_weighed(share(listings, owner, w));
        }
    }
    lemma_weight_is_shared(listings, owner, workers, bytes_of());
    lemma_weight_is_shared(listings, owner, workers, files_of());
    lemma_gathered_records_weigh(listings, owner, parts, one_each());
    assert forall|i: int| 0 <= i < listings.len() implies records_weight(one_each())(
        #[trigger] listings[i],
    ) == readable_of()(listings[i]) by {
        lemma_records_weight(listings[i], one_each());
    }
    lemma_weighed_alike(listings, records_weight(one_each()), readable_of());
    lemma_sum_ones(record_weights(records, one_each()));
}

/// A scan of a tree whose root could be listed, and that was not asked to
/// stop, goes through exactly when the census fits the types of the
/// snapshot: the bytes of all files a `u64`, and the number of the files and
/// the number of the directories read a `u32` each. Nothing else fails it,
/// whatever the number of workers; and a scan that fails for want of room
/// leaves the snapshot as it was.
pub proof fn lemma_scan_fails_only_for_want_of_room(
    before: ScanResults,
    listings: Seq<ListingModel>,
    owner: spec_fn(int) -> int,
    parts: Seq<ThreadScanResult>,
    scan_time_millis: u64,
    estimated_total_size: u64,
    limit: u32,
    after: ScanResults,
    ended: ScanEnd,
)
    requires
        !before.cancellation_flag,
        shared_out(listings, owner, parts),
        ends_as(
            before,
            parts,
            true,
            scan_time_millis,
            estimated_total_size,
            limit,
            after,
            ended,
        ),
    ensures
        ended.outcome is Ok <==> census_bytes(listings) <= u64::MAX && census_files(listings)
            <= u32::MAX && census_readable(listings) <= u32::MAX,
        ended.outcome matches Err(e) ==> crate::errors::is_overflow(e) && after == before,
{
    lemma_parts_hold_the_census(listings, owner, parts);
    if census_bytes(listings) <= u64::MAX && census_files(listings) <= u32::MAX
        && census_readable(listings) <= u32::MAX {
        lemma_scan_ends_with_the_census(
            before,
            listings,
            owner,
            parts,
            scan_time_millis,
            estimated_total_size,
            limit,
            after,
            ended,
        );
    }
}

/// A scan that went through holds the census of its tree, whatever the
/// size of the tree and the number of workers: whenever the end of a scan
/// answers without an error and closes with an event, the totals of the
/// snapshot are the bytes and the number of all files of all listings and
/// the number of the directories read, and, where each directory is listed
/// once, every folder of the snapshot holds the bytes and the number of all
/// files in its directory and anywhere below it.
pub proof fn lemma_finished_scan_holds_the_census(
    before: ScanResults,
    listings: Seq<ListingModel>,
    owner: spec_fn(int) -> int,
    parts: Seq<ThreadScanResult>,
    root_readable: bool,
    scan_time_millis: u64,
    estimated_total_size: u64,
    limit: u32,
    after: ScanResults,
    ended: ScanEnd,
)
    requires
        shared_out(listings, owner, parts),
        ends_as(
            before,
            parts,
            root_readable,
            scan_time_millis,
            estimated_total_size,
            limit,
            after,
            ended,
        ),
        ended.outcome is Ok,
        ended.event is Some,
    ensures
        after.total_size == census_bytes(listings),
        after.total_files == census_files(listings),
        after.total_folders == census_readable(listings),
        listed_once(listings) ==> forall|k: int|
            0 <= k < after.all_folders@.len() ==> {
                let folder = #[trigger] models_of(after.all_folders@)[k];
                &&& folder.size == census_bytes_within(listings, folder.path)
                &&& folder.file_count == census_files_within(listings, folder.path)
            },
        listed_once(listings) ==> forall|i: int|
            0 <= i < listings.len() && (#[trigger] listings[i]).entries is Some ==> has_path(
                models_of(after.all_folders@),
                listings[i].path,
            ),
{
    lemma_snapshot_holds_the_census(
        listings,
        owner,
        parts,
        after,
        before.scan_path@,
        scan_time_millis,
        limit,
    );
    lemma_parts_hold_the_census(listings, owner, parts);
    if listed_once(listings) {
        lemma_snapshot_folders_cover_subtrees(
            listings,
            owner,
            parts,
            after,
            before.scan_path@,
            scan_time_millis,
            limit,
        );
    }
}

/// A scan that went through leaves a list of its largest files that is in
/// falling order of size and holds at most as many files as the scan
/// keeps, however many files the tree holds: whenever the end of a scan
/// answers without an error and closes with an event, the snapshot has
/// such a list.
pub proof fn lemma_finished_scan_lists_the_largest(
    before: ScanResults,
    parts: Seq<ThreadScanResult>,
    root_readable: bool,
    scan_time_millis: u64,
    estimated_total_size: u64,
    limit: u32,
    after: ScanResults,
    ended: ScanEnd,
)
    requires
        ends_as(
            before,
            parts,
            root_readable,
            scan_time_millis,
            estimated_total_size,
            limit,
            after,
            ended,
        ),
        ended.outcome is Ok,
        ended.event is Some,
    ensures
        listed_largest(models_of(after.largest_files@)) matches Some(items) && {
            &&& items.len() <= limit
            &&& forall|i: int, j: int|
                0 <= i < j < items.len() ==> (#[trigger] items[i]).size >= (#[trigger] items[j]).size
        },
{
    lemma_largest_listing_falls(parts, after, before.scan_path@, scan_time_millis, limit);
}

} // verus!
