//! Ranking a table of entries: which rows are listed, and in what order.
use vstd::prelude::*;
use crate::order::SortKey;
use crate::order::ranks_before;
use crate::order::entry_ranks_before;
use crate::order::lemma_ranks_total;
use crate::order::lemma_ranks_transitive;
use crate::score::PathEntry;

verus! {

/// Whether entry `a` is listed before entry `b`.
pub open spec fn entry_before(key: SortKey, now: nat, a: PathEntry, b: PathEntry) -> bool {
    ranks_before(key, now, a.path@, a.stats(), b.path@, b.stats())
}

/// No two rows are for the same path.
pub open spec fn distinct_paths(rows: Seq<PathEntry>) -> bool {
    forall|i: int, j: int| 0 <= i < j < rows.len() ==> rows[i].path@ != rows[j].path@
}

/// Every position in `order` names a row.
pub open spec fn names_rows(order: Seq<usize>, rows: Seq<PathEntry>) -> bool {
    forall|a: int| 0 <= a < order.len() ==> (#[trigger] order[a]) < rows.len()
}

/// The rows that `order` names stand strictly in ranking order.
pub open spec fn in_rank_order(order: Seq<usize>, rows: Seq<PathEntry>, key: SortKey, now: nat) -> bool {
    forall|a: int, b: int|
        0 <= a < b < order.len() ==> entry_before(
            key,
            now,
            rows[#[trigger] order[a] as int],
            rows[#[trigger] order[b] as int],
        )
}

/// How many rows a listing of `total` rows holds under `limit`.
pub open spec fn listed_len(total: nat, limit: Option<u64>) -> nat {
    match limit {
        Some(k) => if k < total { k as nat } else { total },
        None => total,
    }
}

/// `order` is the ranking of `rows` by `key` at `now`, cut to `limit`: it
/// names rows in strict ranking order, holds as many as the limit allows, and
/// leaves a row out only where the limit is reached and the row ranks after
/// every row it names.
pub open spec fn is_selection(
    order: Seq<usize>,
    rows: Seq<PathEntry>,
    key: SortKey,
    now: nat,
    limit: Option<u64>,
) -> bool {
    &&& names_rows(order, rows)
    &&& in_rank_order(order, rows, key, now)
    &&& order.len() == listed_len(rows.len(), limit)
    &&& forall|j: int|
        0 <= j < rows.len() ==> #[trigger] order.contains(j as usize) || (limit matches Some(k)
            && order.len() == k && forall|a: int|
            0 <= a < order.len() ==> entry_before(key, now, rows[#[trigger] order[a] as int], rows[j]))
}

proof fn lemma_insert_keeps_order(
    order: Seq<usize>,
    rows: Seq<PathEntry>,
    key: SortKey,
    now: nat,
    pos: int,
    row: usize,
)
    requires
        distinct_paths(rows),
        names_rows(order, rows),
        in_rank_order(order, rows, key, now),
        0 <= pos <= order.len(),
        row < rows.len(),
        forall|a: int| 0 <= a < order.len() ==> (#[trigger] order[a]) != row,
        forall|a: int|
            0 <= a < pos ==> entry_before(key, now, rows[#[trigger] order[a] as int], rows[row as int]),
        pos < order.len() ==> !entry_before(key, now, rows[order[pos] as int], rows[row as int]),
    ensures
        names_rows(order.insert(pos, row), rows),
        in_rank_order(order.insert(pos, row), rows, key, now),
{
    let grown = order.insert(pos, row);
    let entry = rows[row as int];
    assert forall|b: int| pos <= b < order.len() implies entry_before(
        key,
        now,
        entry,
        rows[#[trigger] order[b] as int],
    ) by {
        let at_pos = rows[order[pos] as int];
        let at_b = rows[order[b] as int];
        assert(order[pos] != row);
        lemma_ranks_total(key, now, at_pos.path@, at_pos.stats(), entry.path@, entry.stats());
        if pos < b {
            lemma_ranks_transitive(
                key,
                now,
                entry.path@,
                entry.stats(),
                at_pos.path@,
                at_pos.stats(),
                at_b.path@,
                at_b.stats(),
            );
        }
    }
    assert forall|a: int| 0 <= a < grown.len() implies (#[trigger] grown[a]) < rows.len() by {
        if a < pos {
            assert(grown[a] == order[a]);
        } else if a > pos {
            assert(grown[a] == order[a - 1]);
        }
    }
    assert forall|a: int, b: int| 0 <= a < b < grown.len() implies entry_before(
        key,
        now,
        rows[#[trigger] grown[a] as int],
        rows[#[trigger] grown[b] as int],
    ) by {
        if b < pos {
            assert(grown[a] == order[a] && grown[b] == order[b]);
        } else if b == pos {
            assert(grown[a] == order[a] && grown[b] == row);
        } else if a < pos {
            assert(grown[a] == order[a] && grown[b] == order[b - 1]);
        } else if a == pos {
            assert(grown[a] == row && grown[b] == order[b - 1]);
        } else {
            assert(grown[a] == order[a - 1] && grown[b] == order[b - 1]);
        }
    }
}

/// The positions of all rows, in strict ranking order.
fn sort_rows(rows: &Vec<PathEntry>, key: SortKey, now_millis: u64) -> (order: Vec<usize>)
    requires
        distinct_paths(rows@),
    ensures
        is_selection(order@, rows@, key, now_millis as nat, None),
        forall|j: int| 0 <= j < rows@.len() ==> #[trigger] order@.contains(j as usize),
{
    let mut order: Vec<usize> = Vec::new();
    let mut next: usize = 0;
    while next < rows.len()
        invariant
            distinct_paths(rows@),
            0 <= next <= rows@.len(),
            order@.len() == next,
            names_rows(order@, rows@),
            in_rank_order(order@, rows@, key, now_millis as nat),
            forall|a: int| 0 <= a < order@.len() ==> (#[trigger] order@[a]) < next,
            forall|j: int| 0 <= j < next ==> #[trigger] order@.contains(j as usize),
        decreases rows@.len() - next,
    {
        let mut pos: usize = 0;
        while pos < order.len() && entry_ranks_before(key, now_millis, &rows[order[pos]], &rows[next])
            invariant
                0 <= pos <= order@.len(),
                next < rows@.len(),
                names_rows(order@, rows@),
                forall|a: int|
                    0 <= a < pos ==> entry_before(
                        key,
                        now_millis as nat,
                        rows@[#[trigger] order@[a] as int],
                        rows@[next as int],
                    ),
            decreases order@.len() - pos,
        {
            pos += 1;
        }
        let ghost before = order@;
        proof {
            lemma_insert_keeps_order(before, rows@, key, now_millis as nat, pos as int, next);
        }
        order.insert(pos, next);
        proof {
            let grown = order@;
            assert forall|a: int| 0 <= a < grown.len() implies (#[trigger] grown[a]) < next + 1 by {
                if a < pos {
                    assert(grown[a] == before[a]);
                } else if a > pos {
                    assert(grown[a] == before[a - 1]);
                }
            }
            assert forall|j: int| 0 <= j < next + 1 implies #[trigger] grown.contains(j as usize) by {
                if j == next {
                    assert(grown[pos as int] == next);
                } else {
                    assert(before.contains(j as usize));
                    let k = choose|k: int| 0 <= k < before.len() && before[k] == j as usize;
                    if k < pos {
                        assert(grown[k] == j as usize);
                    } else {
                        assert(grown[k + 1] == j as usize);
                    }
                }
            }
        }
        next += 1;
    }
    order
}

/// Ranks `rows` by `key` at `now_millis` and keeps the first `limit` of them,
/// or all where there is no limit or fewer rows than the limit. The result
/// holds the positions in `rows` of the rows that are listed, first rank
/// first.
pub fn select_rows(rows: &Vec<PathEntry>, key: SortKey, now_millis: u64, limit: Option<u64>) -> (order:
    Vec<usize>)
    requires
        distinct_paths(rows@),
    ensures
        is_selection(order@, rows@, key, now_millis as nat, limit),
{
    let mut order: Vec<usize> = sort_rows(rows, key, now_millis);
    let ghost full = order@;
    match limit {
        Some(k) => {
            if k < order.len() as u64 {
                order.truncate(k as usize);
                proof {
                    let cut = order@;
                    assert forall|j: int| 0 <= j < rows@.len() implies #[trigger] cut.contains(
                        j as usize,
                    ) || (cut.len() == k && forall|a: int|
                        0 <= a < cut.len() ==> entry_before(
                            key,
                            now_millis as nat,
                            rows@[#[trigger] cut[a] as int],
                            rows@[j],
                        )) by {
                        assert(full.contains(j as usize));
                        let at = choose|at: int| 0 <= at < full.len() && full[at] == j as usize;
                        if at < cut.len() {
                            assert(cut[at] == j as usize);
                        } else {
                            assert forall|a: int| 0 <= a < cut.len() implies entry_before(
                                key,
                                now_millis as nat,
                                rows@[#[trigger] cut[a] as int],
                                rows@[j],
                            ) by {
                                assert(cut[a] == full[a]);
                            }
                        }
                    }
                    assert forall|a: int, b: int| 0 <= a < b < cut.len() implies entry_before(
                        key,
                        now_millis as nat,
                        rows@[#[trigger] cut[a] as int],
                        rows@[#[trigger] cut[b] as int],
                    ) by {
                        assert(cut[a] == full[a] && cut[b] == full[b]);
                    }
                    assert forall|a: int| 0 <= a < cut.len() implies (#[trigger] cut[a]) < rows@.len() by {
                        assert(cut[a] == full[a]);
                    }
                }
            }
        },
        None => {},
    }
    order
}

} // verus!
