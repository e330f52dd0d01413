//! What a listing of the tracked paths must look like, and what follows from
//! that.
use vstd::prelude::*;
use crate::order::SortKey;
use crate::order::ranks_before;
use crate::order::lemma_ranks_asymmetric;
use crate::order::lemma_ranks_total;
use crate::rank::listed_len;
use crate::score::Stats;
use crate::score::score_of;

verus! {

/// Whether `listing` holds an item for `path`.
pub open spec fn lists(listing: Seq<(String, u128)>, path: Seq<char>) -> bool {
    exists|i: int| 0 <= i < listing.len() && (#[trigger] listing[i]).0@ == path
}

/// `listing` is the listing of `table` ranked by `key` at `now` and cut to
/// `limit`:
/// - it holds as many items as the table has paths, or as the limit allows if
///   that is fewer;
/// - each item is a tracked path together with its score at `now`;
/// - the items stand strictly in ranking order, so no path occurs twice;
/// - with no limit every tracked path is listed, and with a limit a tracked
///   path is left out only if the limit is reached and the path ranks after
///   every listed one.
pub open spec fn is_listing(
    listing: Seq<(String, u128)>,
    table: Map<Seq<char>, Stats>,
    key: SortKey,
    now: nat,
    limit: Option<u64>,
) -> bool {
    &&& listing.len() == listed_len(table.dom().len(), limit)
    &&& forall|i: int|
        0 <= i < listing.len() ==> table.dom().contains((#[trigger] listing[i]).0@) && listing[i].1
            == score_of(table[listing[i].0@], now)
    &&& forall|i: int, j: int|
        0 <= i < j < listing.len() ==> ranks_before(
            key,
            now,
            (#[trigger] listing[i]).0@,
            table[listing[i].0@],
            (#[trigger] listing[j]).0@,
            table[listing[j].0@],
        )
    &&& forall|p: Seq<char>| #[trigger]
        table.dom().contains(p) ==> lists(listing, p) || (limit matches Some(k) && listing.len() == k
            && forall|i: int|
            0 <= i < listing.len() ==> ranks_before(
                key,
                now,
                (#[trigger] listing[i]).0@,
                table[listing[i].0@],
                p,
                table[p],
            ))
}

/// A listing by score never shows a higher score after a lower one.
pub proof fn lemma_scores_never_rise(
    listing: Seq<(String, u128)>,
    table: Map<Seq<char>, Stats>,
    now: nat,
    limit: Option<u64>,
)
    requires
        is_listing(listing, table, SortKey::Score, now, limit),
    ensures
        forall|i: int, j: int|
            0 <= i <= j < listing.len() ==> (#[trigger] listing[i]).1 >= (#[trigger] listing[j]).1,
{
}

/// A listing by last visit never shows a more recent visit after an older
/// one.
pub proof fn lemma_last_visits_never_rise(
    listing: Seq<(String, u128)>,
    table: Map<Seq<char>, Stats>,
    now: nat,
    limit: Option<u64>,
)
    requires
        is_listing(listing, table, SortKey::LastVisit, now, limit),
    ensures
        forall|i: int, j: int|
            0 <= i <= j < listing.len() ==> table[(#[trigger] listing[i]).0@].last_visit_millis
                >= table[(#[trigger] listing[j]).0@].last_visit_millis,
{
}

/// No path occurs twice in a listing.
pub proof fn lemma_listed_once(
    listing: Seq<(String, u128)>,
    table: Map<Seq<char>, Stats>,
    key: SortKey,
    now: nat,
    limit: Option<u64>,
    i: int,
    j: int,
)
    requires
        is_listing(listing, table, key, now, limit),
        0 <= i < listing.len(),
        0 <= j < listing.len(),
        listing[i].0@ == listing[j].0@,
    ensures
        i == j,
{
    if i < j {
        lemma_ranks_asymmetric(
            key,
            now,
            listing[i].0@,
            table[listing[i].0@],
            listing[j].0@,
            table[listing[j].0@],
        );
    } else if j < i {
        lemma_ranks_asymmetric(
            key,
            now,
            listing[j].0@,
            table[listing[j].0@],
            listing[i].0@,
            table[listing[i].0@],
        );
    }
}

/// A path that was removed from the table is in no listing of it.
pub proof fn lemma_removed_is_not_listed(
    listing: Seq<(String, u128)>,
    table: Map<Seq<char>, Stats>,
    removed: Set<Seq<char>>,
    key: SortKey,
    now: nat,
    limit: Option<u64>,
    path: Seq<char>,
)
    requires
        is_listing(listing, table.remove_keys(removed), key, now, limit),
        removed.contains(path),
    ensures
        !lists(listing, path),
{
}

/// Removing paths that are not tracked leaves the table as it was.
pub proof fn lemma_removing_untracked_changes_nothing(
    table: Map<Seq<char>, Stats>,
    removed: Set<Seq<char>>,
)
    requires
        forall|p: Seq<char>| removed.contains(p) ==> !table.dom().contains(p),
    ensures
        table.remove_keys(removed) == table,
{
    assert(table.remove_keys(removed) =~= table);
}

/// Removing again what is already gone changes nothing.
pub proof fn lemma_removing_twice_is_removing_once(
    table: Map<Seq<char>, Stats>,
    removed: Set<Seq<char>>,
)
    ensures
        table.remove_keys(removed).remove_keys(removed) == table.remove_keys(removed),
{
    assert(table.remove_keys(removed).remove_keys(removed) =~= table.remove_keys(removed));
}

/// A limited listing holds at most as many items as the limit says, and is
/// the start of the unlimited listing: as long as the limit and the table
/// allow, and item for item the same path with the same score. So no path is
/// left out in favour of one that ranks after it.
pub proof fn lemma_limited_is_prefix(
    cut: Seq<(String, u128)>,
    full: Seq<(String, u128)>,
    table: Map<Seq<char>, Stats>,
    key: SortKey,
    now: nat,
    limit: u64,
)
    requires
        is_listing(cut, table, key, now, Some(limit)),
        is_listing(full, table, key, now, None),
    ensures
        cut.len() <= limit,
        cut.len() == if limit < full.len() {
            limit as nat
        } else {
            full.len()
        },
        forall|i: int|
            0 <= i < cut.len() ==> (#[trigger] cut[i]).0@ == full[i].0@ && cut[i].1 == full[i].1,
{
    assert forall|i: int| 0 <= i < cut.len() implies (#[trigger] cut[i]).0@ == full[i].0@ && cut[i].1
        == full[i].1 by {
        lemma_limited_agrees_at(cut, full, table, key, now, limit, i);
    }
}

proof fn lemma_limited_agrees_at(
    cut: Seq<(String, u128)>,
    full: Seq<(String, u128)>,
    table: Map<Seq<char>, Stats>,
    key: SortKey,
    now: nat,
    limit: u64,
    i: int,
)
    requires
        is_listing(cut, table, key, now, Some(limit)),
        is_listing(full, table, key, now, None),
        0 <= i < cut.len(),
    ensures
        cut[i].0@ == full[i].0@,
        cut[i].1 == full[i].1,
    decreases i,
{
    let p = cut[i].0@;
    let q = full[i].0@;
    if p != q {
        assert forall|a: int| 0 <= a < i implies (#[trigger] cut[a]).0@ == full[a].0@ by {
            lemma_limited_agrees_at(cut, full, table, key, now, limit, a);
        }
        assert(table.dom().contains(p));
        assert(lists(full, p));
        let a = choose|a: int| 0 <= a < full.len() && (#[trigger] full[a]).0@ == p;
        if a < i {
            assert(cut[a].0@ == p);
            lemma_listed_once(cut, table, key, now, Some(limit), a, i);
        }
        assert(a > i);
        assert(ranks_before(key, now, q, table[q], p, table[p]));
        lemma_ranks_asymmetric(key, now, q, table[q], p, table[p]);
        assert(table.dom().contains(q));
        if lists(cut, q) {
            let b = choose|b: int| 0 <= b < cut.len() && (#[trigger] cut[b]).0@ == q;
            if b < i {
                assert(full[b].0@ == q);
                lemma_listed_once(full, table, key, now, None, b, i);
            }
            assert(b > i);
            assert(ranks_before(key, now, p, table[p], q, table[q]));
        } else {
            assert(ranks_before(key, now, cut[i].0@, table[cut[i].0@], q, table[q]));
        }
        assert(false);
    }
}

/// The order of a listing is settled: two listings of one table under the
/// same key, instant and limit show the same paths with the same scores in
/// the same order.
pub proof fn lemma_listing_is_unique(
    first: Seq<(String, u128)>,
    second: Seq<(String, u128)>,
    table: Map<Seq<char>, Stats>,
    key: SortKey,
    now: nat,
    limit: Option<u64>,
)
    requires
        is_listing(first, table, key, now, limit),
        is_listing(second, table, key, now, limit),
    ensures
        first.len() == second.len(),
        forall|i: int|
            0 <= i < first.len() ==> (#[trigger] first[i]).0@ == second[i].0@ && first[i].1
                == second[i].1,
{
    assert forall|i: int| 0 <= i < first.len() implies (#[trigger] first[i]).0@ == second[i].0@
        && first[i].1 == second[i].1 by {
        lemma_listings_agree_at(first, second, table, key, now, limit, i);
    }
}

proof fn lemma_listings_agree_at(
    first: Seq<(String, u128)>,
    second: Seq<(String, u128)>,
    table: Map<Seq<char>, Stats>,
    key: SortKey,
    now: nat,
    limit: Option<u64>,
    i: int,
)
    requires
        is_listing(first, table, key, now, limit),
        is_listing(second, table, key, now, limit),
        0 <= i < first.len(),
    ensures
        first[i].0@ == second[i].0@,
        first[i].1 == second[i].1,
    decreases i,
{
    let p = first[i].0@;
    let q = second[i].0@;
    if p != q {
        assert forall|a: int| 0 <= a < i implies (#[trigger] first[a]).0@ == second[a].0@ by {
            lemma_listings_agree_at(first, second, table, key, now, limit, a);
        }
        lemma_ranks_total(key, now, p, table[p], q, table[q]);
        assert(table.dom().contains(p));
        assert(table.dom().contains(q));
        if ranks_before(key, now, p, table[p], q, table[q]) {
            lemma_ranks_asymmetric(key, now, p, table[p], q, table[q]);
            if lists(second, p) {
                let a = choose|a: int| 0 <= a < second.len() && (#[trigger] second[a]).0@ == p;
                if a < i {
                    assert(first[a].0@ == p);
                    lemma_listed_once(first, table, key, now, limit, a, i);
                }
                assert(a > i);
                assert(ranks_before(key, now, q, table[q], p, table[p]));
            } else {
                assert(ranks_before(key, now, second[i].0@, table[second[i].0@], p, table[p]));
            }
        } else {
            lemma_ranks_asymmetric(key, now, q, table[q], p, table[p]);
            if lists(first, q) {
                let b = choose|b: int| 0 <= b < first.len() && (#[trigger] first[b]).0@ == q;
                if b < i {
                    assert(second[b].0@ == q);
                    lemma_listed_once(second, table, key, now, limit, b, i);
                }
                assert(b > i);
                assert(ranks_before(key, now, p, table[p], q, table[q]));
            } else {
                assert(ranks_before(key, now, first[i].0@, table[first[i].0@], q, table[q]));
            }
        }
        assert(false);
    }
}

} // verus!
