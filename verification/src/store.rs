//! The path store: the table of tracked paths with its two states, and the
//! operations that record a visit, list the paths and remove paths.
use vstd::prelude::*;
use crate::clock::now_millis;
use crate::listing::is_listing;
use crate::order::SortKey;
use crate::order::same_path;
use crate::rank::distinct_paths;
use crate::rank::is_selection;
use crate::rank::select_rows;
use crate::score::PathEntry;
use crate::score::Stats;
use crate::score::record_visit;
use crate::score::score;
use crate::score::score_of;
use crate::score::visited;

verus! {

/// Why an operation on the store failed.
#[derive(Debug, Clone, Copy, PartialEq, Eq, Structural)]
pub enum FrecencyError {
    /// The backing location cannot be opened or created.
    StorageUnavailable,
    /// A write met a store without schema. The store creates the schema and
    /// writes again, so no operation hands this out.
    SchemaMissing,
    /// The store could not carry the operation out.
    StorageError,
    /// An argument is malformed.
    InvalidInput,
}

impl FrecencyError {
    /// The text of the message for this error.
    pub open spec fn message_text(self) -> Seq<char> {
        match self {
            FrecencyError::StorageUnavailable => "storage location cannot be opened or created"@,
            FrecencyError::SchemaMissing => "schema is missing"@,
            FrecencyError::StorageError => "storage operation failed"@,
            FrecencyError::InvalidInput => "invalid input"@,
        }
    }

    /// A message for the user.
    pub fn message(&self) -> (text: String)
        ensures
            text@ == self.message_text(),
    {
        match self {
            FrecencyError::StorageUnavailable => "storage location cannot be opened or created".to_owned(),
            FrecencyError::SchemaMissing => "schema is missing".to_owned(),
            FrecencyError::StorageError => "storage operation failed".to_owned(),
            FrecencyError::InvalidInput => "invalid input".to_owned(),
        }
    }
}

/// Whether some row is for `path`.
pub open spec fn has_row(rows: Seq<PathEntry>, path: Seq<char>) -> bool {
    exists|i: int| 0 <= i < rows.len() && (#[trigger] rows[i]).path@ == path
}

/// The position of a row for `path`.
pub open spec fn row_of(rows: Seq<PathEntry>, path: Seq<char>) -> int {
    choose|i: int| 0 <= i < rows.len() && (#[trigger] rows[i]).path@ == path
}

/// The table that `rows` stand for: each row's path with its statistics.
pub open spec fn table_of(rows: Seq<PathEntry>) -> Map<Seq<char>, Stats> {
    Map::new(|p: Seq<char>| has_row(rows, p), |p: Seq<char>| rows[row_of(rows, p)].stats())
}

/// What holds of every table a store can hold: finitely many paths, none of
/// them empty, each visited at least once, with statistics in machine range.
pub open spec fn valid_table(table: Map<Seq<char>, Stats>) -> bool {
    &&& table.dom().finite()
    &&& !table.dom().contains(Seq::<char>::empty())
    &&& forall|p: Seq<char>| #[trigger]
        table.dom().contains(p) ==> 1 <= table[p].visit_count <= u64::MAX
            && table[p].last_visit_millis <= u64::MAX
}

/// The statistics that `table` holds for `path`, if it tracks the path.
pub open spec fn prior_stats(table: Map<Seq<char>, Stats>, path: Seq<char>) -> Option<Stats> {
    if table.dom().contains(path) {
        Some(table[path])
    } else {
        None
    }
}

/// The table after one visit to `path` at `now`: the row for `path` is
/// created or updated, every other row stays.
pub open spec fn after_visit(table: Map<Seq<char>, Stats>, path: Seq<char>, now: nat) -> Map<
    Seq<char>,
    Stats,
> {
    table.insert(path, visited(prior_stats(table, path), now))
}

/// The table after visits to `path` at each of `times`, in turn.
pub open spec fn after_visits(table: Map<Seq<char>, Stats>, path: Seq<char>, times: Seq<u64>) -> Map<
    Seq<char>,
    Stats,
>
    decreases times.len(),
{
    if times.len() == 0 {
        table
    } else {
        after_visit(after_visits(table, path, times.drop_last()), path, times.last() as nat)
    }
}

/// How recording a visit to `path` ends on a store that holds `table`: an
/// empty path is refused, and so is a visit that the counter of the path has
/// no room for.
pub open spec fn visit_outcome(table: Map<Seq<char>, Stats>, path: Seq<char>) -> Result<
    (),
    FrecencyError,
> {
    if path.len() == 0 {
        Err(FrecencyError::InvalidInput)
    } else if table.dom().contains(path) && table[path].visit_count >= u64::MAX {
        Err(FrecencyError::StorageError)
    } else {
        Ok(())
    }
}

/// The set of the paths that `paths` names.
pub open spec fn named_paths(paths: Seq<&str>) -> Set<Seq<char>> {
    Set::new(|p: Seq<char>| exists|k: int| 0 <= k < paths.len() && (#[trigger] paths[k])@ == p)
}

/// In a table without duplicates every row is found under its path.
pub proof fn lemma_table_rows(rows: Seq<PathEntry>)
    requires
        distinct_paths(rows),
    ensures
        forall|i: int|
            0 <= i < rows.len() ==> table_of(rows).dom().contains((#[trigger] rows[i]).path@)
                && table_of(rows)[rows[i].path@] == rows[i].stats(),
        forall|p: Seq<char>| #[trigger]
            table_of(rows).dom().contains(p) ==> 0 <= row_of(rows, p) < rows.len() && rows[row_of(
                rows,
                p,
            )].path@ == p,
{
    assert forall|i: int| 0 <= i < rows.len() implies table_of(rows).dom().contains(
        (#[trigger] rows[i]).path@,
    ) && table_of(rows)[rows[i].path@] == rows[i].stats() by {
        let p = rows[i].path@;
        assert(has_row(rows, p));
        let j = row_of(rows, p);
        assert(0 <= j < rows.len() && rows[j].path@ == p);
        assert(j == i);
    }
}

/// A table without duplicates tracks as many paths as it has rows.
pub proof fn lemma_table_len(rows: Seq<PathEntry>)
    requires
        distinct_paths(rows),
    ensures
        table_of(rows).dom().finite(),
        table_of(rows).dom().len() == rows.len(),
{
    let paths = rows.map_values(|e: PathEntry| e.path@);
    assert(paths.no_duplicates());
    assert(paths.to_set() =~= table_of(rows).dom()) by {
        assert forall|p: Seq<char>| paths.to_set().contains(p) <==> table_of(rows).dom().contains(
            p,
        ) by {
            if paths.contains(p) {
                let i = choose|i: int| 0 <= i < paths.len() && paths[i] == p;
                assert(rows[i].path@ == p);
            }
            if has_row(rows, p) {
                let i = row_of(rows, p);
                assert(paths[i] == p);
            }
        }
    }
    paths.unique_seq_to_set();
    vstd::seq_lib::seq_to_set_is_finite(paths);
}

/// A visit changes one row: where the path is not empty and its counter has
/// room the visit is not refused, the path is tracked afterwards with its
/// new statistics, and every other path is tracked exactly if it was before,
/// with the statistics it had. No row is dropped.
pub proof fn lemma_visit_changes_one_row(table: Map<Seq<char>, Stats>, path: Seq<char>, now: nat)
    requires
        path.len() > 0,
        table.dom().contains(path) ==> table[path].visit_count < u64::MAX,
    ensures
        visit_outcome(table, path) is Ok,
        after_visit(table, path, now).dom() == table.dom().insert(path),
        after_visit(table, path, now)[path] == visited(prior_stats(table, path), now),
        forall|other: Seq<char>|
            other != path && table.dom().contains(other) ==> #[trigger] after_visit(
                table,
                path,
                now,
            )[other] == table[other],
{
    assert(after_visit(table, path, now).dom() =~= table.dom().insert(path));
}

/// The visit count that `table` holds for `path`, zero for a path it does not
/// track.
pub open spec fn visit_count_of(table: Map<Seq<char>, Stats>, path: Seq<char>) -> nat {
    match prior_stats(table, path) {
        Some(stats) => stats.visit_count,
        None => 0,
    }
}

/// Visits add up: after visits to `path` at each of `times`, the path's visit
/// count has grown by the number of visits and its last visit is the last of
/// `times`, while every other path is as it was. So a path that was not
/// tracked before has exactly as many visits as were recorded. This holds
/// whatever the order of the timestamps.
pub proof fn lemma_visits_accumulate(table: Map<Seq<char>, Stats>, path: Seq<char>, times: Seq<u64>)
    requires
        times.len() >= 1,
    ensures
        after_visits(table, path, times).dom() == table.dom().insert(path),
        after_visits(table, path, times)[path] == (Stats {
            visit_count: visit_count_of(table, path) + times.len(),
            last_visit_millis: times.last() as nat,
        }),
        forall|other: Seq<char>|
            other != path && table.dom().contains(other) ==> #[trigger] after_visits(
                table,
                path,
                times,
            )[other] == table[other],
    decreases times.len(),
{
    let earlier = times.drop_last();
    let so_far = after_visits(table, path, earlier);
    assert(after_visits(table, path, times) == after_visit(so_far, path, times.last() as nat));
    if earlier.len() >= 1 {
        lemma_visits_accumulate(table, path, earlier);
    } else {
        assert(so_far == table);
    }
    assert(after_visits(table, path, times).dom() =~= table.dom().insert(path));
}

/// No visit in a run of visits is refused while the counter has room: if the
/// path is not empty and its visit count plus the number of visits stays in
/// range, recording the next visit after any number of them succeeds.
pub proof fn lemma_visits_succeed(
    table: Map<Seq<char>, Stats>,
    path: Seq<char>,
    times: Seq<u64>,
    done: int,
)
    requires
        path.len() > 0,
        visit_count_of(table, path) + times.len() <= u64::MAX,
        0 <= done < times.len(),
    ensures
        visit_outcome(after_visits(table, path, times.take(done)), path) is Ok,
{
    if done >= 1 {
        lemma_visits_accumulate(table, path, times.take(done));
    }
}

/// What holds of the rows of every store: one row per path, no row for the
/// empty path, every row visited at least once.
pub open spec fn valid_rows(rows: Seq<PathEntry>) -> bool {
    &&& distinct_paths(rows)
    &&& forall|i: int|
        0 <= i < rows.len() ==> (#[trigger] rows[i]).visit_count >= 1 && rows[i].path@.len() > 0
}

/// The table of tracked paths. A store starts without schema and holds no
/// rows until the schema is created; once created, the schema stays.
pub struct Store {
    ready: bool,
    rows: Vec<PathEntry>,
}

impl View for Store {
    type V = Map<Seq<char>, Stats>;

    /// The table that the store holds: each tracked path with its statistics.
    closed spec fn view(&self) -> Map<Seq<char>, Stats> {
        table_of(self.rows@)
    }
}

impl Store {
    /// Whether the schema is present.
    pub closed spec fn is_ready(&self) -> bool {
        self.ready
    }

    /// The rows, in the order in which the store holds them.
    pub closed spec fn rows(&self) -> Seq<PathEntry> {
        self.rows@
    }

    /// The store's invariant: one row per path, no row for the empty path,
    /// every row visited at least once, and no rows without schema.
    pub closed spec fn wf(&self) -> bool {
        &&& valid_rows(self.rows@)
        &&& !self.ready ==> self.rows@.len() == 0
    }

    /// What the invariant says of the table.
    pub proof fn lemma_wf_table(&self)
        requires
            self.wf(),
        ensures
            valid_table(self@),
            valid_rows(self.rows()),
            table_of(self.rows()) == self@,
            !self.is_ready() ==> self.rows().len() == 0 && self@ == Map::<Seq<char>, Stats>::empty(),
    {
        lemma_table_rows(self.rows@);
        lemma_table_len(self.rows@);
        if self@.dom().contains(Seq::<char>::empty()) {
            let i = row_of(self.rows@, Seq::<char>::empty());
            assert(self.rows@[i].path@.len() > 0);
        }
        if !self.ready {
            assert(self@ =~= Map::<Seq<char>, Stats>::empty());
        }
    }

    /// A store without schema and without rows.
    pub fn new() -> (store: Store)
        ensures
            store.wf(),
            !store.is_ready(),
            store@ == Map::<Seq<char>, Stats>::empty(),
    {
        let store = Store { ready: false, rows: Vec::new() };
        assert(store@ =~= Map::<Seq<char>, Stats>::empty());
        store
    }

    /// A store that holds `entries`, with schema if `ready` says so.
    pub(crate) fn from_entries(ready: bool, entries: Vec<PathEntry>) -> (store: Store)
        requires
            valid_rows(entries@),
            !ready ==> entries@.len() == 0,
        ensures
            store.wf(),
            store.is_ready() == ready,
            store.rows() == entries@,
            store@ == table_of(entries@),
    {
        Store { ready, rows: entries }
    }

    /// The rows of the store, one for each tracked path.
    pub fn entries(&self) -> (entries: Vec<PathEntry>)
        requires
            self.wf(),
        ensures
            entries@ == self.rows(),
            valid_rows(entries@),
            table_of(entries@) == self@,
            !self.is_ready() ==> entries@.len() == 0,
    {
        let mut entries: Vec<PathEntry> = Vec::new();
        let mut i: usize = 0;
        while i < self.rows.len()
            invariant
                0 <= i <= self.rows@.len(),
                entries@ == self.rows@.take(i as int),
            decreases self.rows@.len() - i,
        {
            entries.push(self.rows[i].duplicate());
            proof {
                assert(entries@ =~= self.rows@.take(i + 1));
            }
            i += 1;
        }
        proof {
            assert(entries@ =~= self.rows@);
        }
        entries
    }

    /// Whether the schema is present.
    pub fn ready(&self) -> (ready: bool)
        ensures
            ready == self.is_ready(),
    {
        self.ready
    }

    /// The number of tracked paths.
    pub fn len(&self) -> (len: usize)
        requires
            self.wf(),
        ensures
            len == self@.dom().len(),
    {
        proof {
            lemma_table_len(self.rows@);
        }
        self.rows.len()
    }

    fn position(&self, path: &str) -> (found: Option<usize>)
        requires
            self.wf(),
        ensures
            match found {
                Some(i) => i < self.rows@.len() && self.rows@[i as int].path@ == path@,
                None => !has_row(self.rows@, path@),
            },
    {
        let mut i: usize = 0;
        while i < self.rows.len()
            invariant
                0 <= i <= self.rows@.len(),
                forall|j: int| 0 <= j < i ==> (#[trigger] self.rows@[j]).path@ != path@,
            decreases self.rows@.len() - i,
        {
            if same_path(self.rows[i].path.as_str(), path) {
                return Some(i);
            }
            i += 1;
        }
        None
    }

    /// The entry for `path`, if the path is tracked.
    pub fn lookup(&self, path: &str) -> (found: Option<PathEntry>)
        requires
            self.wf(),
        ensures
            match found {
                Some(entry) => self@.dom().contains(path@) && entry.path@ == path@ && entry.stats()
                    == self@[path@],
                None => !self@.dom().contains(path@),
            },
    {
        proof {
            lemma_table_rows(self.rows@);
        }
        match self.position(path) {
            Some(i) => Some(self.rows[i].duplicate()),
            None => None,
        }
    }

    /// One attempt to record a visit. It fails with `SchemaMissing` on a
    /// store without schema and otherwise ends as `visit_outcome` says.
    fn try_add_visit(&mut self, path: &str, now_millis: u64) -> (result: Result<(), FrecencyError>)
        requires
            old(self).wf(),
        ensures
            final(self).wf(),
            final(self).is_ready() == old(self).is_ready(),
            result == (if path@.len() > 0 && !old(self).is_ready() {
                Err(FrecencyError::SchemaMissing)
            } else {
                visit_outcome(old(self)@, path@)
            }),
            result is Ok ==> final(self)@ == after_visit(old(self)@, path@, now_millis as nat),
            result is Err ==> *final(self) == *old(self),
    {
        proof {
            lemma_table_rows(self.rows@);
        }
        if path.is_empty() {
            return Err(FrecencyError::InvalidInput);
        }
        if !self.ready {
            return Err(FrecencyError::SchemaMissing);
        }
        let ghost before = self.rows@;
        match self.position(path) {
            Some(i) => {
                if self.rows[i].visit_count == u64::MAX {
                    return Err(FrecencyError::StorageError);
                }
                let entry = record_visit(path, Some(&self.rows[i]), now_millis);
                self.rows.set(i, entry);
                proof {
                    let after = self.rows@;
                    assert(distinct_paths(after)) by {
                        assert forall|a: int, b: int| 0 <= a < b < after.len() implies after[a].path@
                            != after[b].path@ by {
                            assert(after[a].path@ == before[a].path@);
                            assert(after[b].path@ == before[b].path@);
                        }
                    }
                    lemma_table_rows(after);
                    let expected = after_visit(table_of(before), path@, now_millis as nat);
                    assert forall|p: Seq<char>| table_of(after).dom().contains(p)
                        <==> expected.dom().contains(p) by {
                        if has_row(after, p) {
                            let j = row_of(after, p);
                            assert(before[j].path@ == p);
                        }
                        if has_row(before, p) {
                            let j = row_of(before, p);
                            assert(after[j].path@ == p);
                        }
                        if p == path@ {
                            assert(after[i as int].path@ == p);
                        }
                    }
                    assert forall|p: Seq<char>| table_of(after).dom().contains(p) implies table_of(
                        after,
                    )[p] == expected[p] by {
                        let j = row_of(after, p);
                        if j != i {
                            assert(after[j] == before[j]);
                        }
                    }
                    assert(table_of(after) =~= expected);
                }
            },
            None => {
                let entry = record_visit(path, None, now_millis);
                self.rows.push(entry);
                proof {
                    let after = self.rows@;
                    assert(distinct_paths(after)) by {
                        assert forall|a: int, b: int| 0 <= a < b < after.len() implies after[a].path@
                            != after[b].path@ by {
                            assert(after[a] == before[a]);
                            if b < before.len() {
                                assert(after[b] == before[b]);
                            }
                        }
                    }
                    lemma_table_rows(after);
                    let expected = after_visit(table_of(before), path@, now_millis as nat);
                    assert forall|p: Seq<char>| table_of(after).dom().contains(p)
                        <==> expected.dom().contains(p) by {
                        if has_row(after, p) {
                            let j = row_of(after, p);
                            if j < before.len() {
                                assert(before[j].path@ == p);
                            }
                        }
                        if has_row(before, p) {
                            let j = row_of(before, p);
                            assert(after[j].path@ == p);
                        }
                        if p == path@ {
                            assert(after[before.len() as int].path@ == p);
                        }
                    }
                    assert forall|p: Seq<char>| table_of(after).dom().contains(p) implies table_of(
                        after,
                    )[p] == expected[p] by {
                        let j = row_of(after, p);
                        if j < before.len() {
                            assert(after[j] == before[j]);
                        }
                    }
                    assert(table_of(after) =~= expected);
                }
            },
        }
        Ok(())
    }
}

/// Creates the schema if it is absent. The rows stay as they are, and on a
/// store that has the schema nothing changes at all.
pub fn ensure_schema(store: &mut Store)
    requires
        old(store).wf(),
    ensures
        final(store).wf(),
        final(store).is_ready(),
        final(store)@ == old(store)@,
        old(store).is_ready() ==> *final(store) == *old(store),
{
    store.ready = true;
}

/// Records a visit to `path` at `now_millis`. On a store without schema the
/// write finds the schema missing; the schema is then created and the write
/// made once more, and how that second attempt ends is what the caller gets.
///
/// An empty path is refused with `InvalidInput`, before anything is written.
/// A path whose counter is full is refused with `StorageError`. Every other
/// visit succeeds: a new path gets a row with one visit, a tracked path gets
/// one visit more, and its last visit becomes `now_millis`. A refused visit
/// leaves the store as it was.
pub fn add_visit(store: &mut Store, path: &str, now_millis: u64) -> (result: Result<
    (),
    FrecencyError,
>)
    requires
        old(store).wf(),
    ensures
        final(store).wf(),
        result == visit_outcome(old(store)@, path@),
        result is Ok ==> final(store).is_ready() && final(store)@ == after_visit(
            old(store)@,
            path@,
            now_millis as nat,
        ),
        result is Err ==> *final(store) == *old(store),
{
    match store.try_add_visit(path, now_millis) {
        Err(FrecencyError::SchemaMissing) => {
            ensure_schema(store);
            let second = store.try_add_visit(path, now_millis);
            proof {
                old(store).lemma_wf_table();
            }
            second
        },
        first => first,
    }
}

/// `after` holds the rows of `before` whose path is not in `removed`, and no
/// others.
spec fn keeps(after: Seq<PathEntry>, before: Seq<PathEntry>, removed: Set<Seq<char>>) -> bool {
    &&& distinct_paths(after)
    &&& forall|k: int|
        0 <= k < after.len() ==> !removed.contains((#[trigger] after[k]).path@) && before.contains(
            after[k],
        )
    &&& forall|j: int|
        0 <= j < before.len() && !removed.contains((#[trigger] before[j]).path@) ==> after.contains(
            before[j],
        )
}

proof fn lemma_keeps_grows(
    held: Seq<PathEntry>,
    before: Seq<PathEntry>,
    removed: Set<Seq<char>>,
    i: int,
    drop: bool,
)
    requires
        distinct_paths(before),
        0 <= i < before.len(),
        keeps(held, before.take(i), removed),
        drop == removed.contains(before[i].path@),
    ensures
        keeps(if drop { held } else { held.push(before[i]) }, before.take(i + 1), removed),
{
    let seen = before.take(i);
    let next = before.take(i + 1);
    let grown = if drop { held } else { held.push(before[i]) };
    assert forall|k: int| 0 <= k < held.len() implies next.contains(#[trigger] held[k])
        && held[k].path@ != before[i].path@ by {
        assert(seen.contains(held[k]));
        let j = choose|j: int| 0 <= j < seen.len() && seen[j] == held[k];
        assert(next[j] == held[k]);
        assert(before[j] == held[k]);
    }
    assert forall|k: int| 0 <= k < grown.len() implies !removed.contains((#[trigger] grown[k]).path@)
        && next.contains(grown[k]) by {
        if k < held.len() {
            assert(grown[k] == held[k]);
        } else {
            assert(next[i] == grown[k]);
        }
    }
    assert forall|j: int|
        0 <= j < next.len() && !removed.contains((#[trigger] next[j]).path@) implies grown.contains(
        next[j],
    ) by {
        if j < i {
            assert(seen[j] == next[j]);
            assert(held.contains(seen[j]));
            let k = choose|k: int| 0 <= k < held.len() && held[k] == seen[j];
            assert(grown[k] == next[j]);
        } else {
            assert(grown[held.len() as int] == next[j]);
        }
    }
    assert forall|a: int, b: int| 0 <= a < b < grown.len() implies grown[a].path@ != grown[b].path@ by {
        assert(grown[a] == held[a]);
        if b < held.len() {
            assert(grown[b] == held[b]);
        }
    }
}

proof fn lemma_keeps_table(after: Seq<PathEntry>, before: Seq<PathEntry>, removed: Set<Seq<char>>)
    requires
        distinct_paths(before),
        keeps(after, before, removed),
    ensures
        table_of(after) == table_of(before).remove_keys(removed),
{
    lemma_table_rows(before);
    lemma_table_rows(after);
    let expected = table_of(before).remove_keys(removed);
    assert forall|p: Seq<char>| table_of(after).dom().contains(p) <==> expected.dom().contains(p) by {
        if has_row(after, p) {
            let m = row_of(after, p);
            assert(before.contains(after[m]));
            let j = choose|j: int| 0 <= j < before.len() && before[j] == after[m];
            assert(before[j].path@ == p);
        }
        if has_row(before, p) && !removed.contains(p) {
            let j = row_of(before, p);
            assert(after.contains(before[j]));
            let m = choose|m: int| 0 <= m < after.len() && after[m] == before[j];
            assert(after[m].path@ == p);
        }
    }
    assert forall|p: Seq<char>| table_of(after).dom().contains(p) implies table_of(after)[p]
        == expected[p] by {
        let m = row_of(after, p);
        assert(before.contains(after[m]));
        let j = choose|j: int| 0 <= j < before.len() && before[j] == after[m];
        assert(before[j].path@ == p);
    }
    assert(table_of(after) =~= expected);
}

/// Whether `path` is one of `paths`.
pub fn names_path(paths: &[&str], path: &str) -> (named: bool)
    ensures
        named == named_paths(paths@).contains(path@),
{
    let mut k: usize = 0;
    while k < paths.len()
        invariant
            0 <= k <= paths@.len(),
            forall|m: int| 0 <= m < k ==> (#[trigger] paths@[m])@ != path@,
        decreases paths@.len() - k,
    {
        if same_path(paths[k], path) {
            return true;
        }
        k += 1;
    }
    false
}

/// Removes every row whose path is one of `paths`, all at once. A path that
/// is not tracked is passed over. On a store without schema the operation
/// fails with `StorageError` and changes nothing.
pub fn remove_paths(store: &mut Store, paths: &[&str]) -> (result: Result<(), FrecencyError>)
    requires
        old(store).wf(),
    ensures
        final(store).wf(),
        final(store).is_ready() == old(store).is_ready(),
        old(store).is_ready() ==> result is Ok && final(store)@ == old(store)@.remove_keys(
            named_paths(paths@),
        ),
        !old(store).is_ready() ==> result == Err::<(), FrecencyError>(FrecencyError::StorageError)
            && *final(store) == *old(store),
{
    if !store.ready {
        return Err(FrecencyError::StorageError);
    }
    let ghost before = store.rows@;
    let ghost removed = named_paths(paths@);
    let mut kept: Vec<PathEntry> = Vec::new();
    let mut i: usize = 0;
    while i < store.rows.len()
        invariant
            store.rows@ == before,
            removed == named_paths(paths@),
            valid_rows(before),
            0 <= i <= before.len(),
            keeps(kept@, before.take(i as int), removed),
        decreases before.len() - i,
    {
        let named: bool = names_path(paths, store.rows[i].path.as_str());
        proof {
            lemma_keeps_grows(kept@, before, removed, i as int, named);
        }
        if !named {
            kept.push(store.rows[i].duplicate());
        }
        i += 1;
    }
    store.rows = kept;
    proof {
        let after = store.rows@;
        assert(before.take(before.len() as int) =~= before);
        lemma_keeps_table(after, before, removed);
        assert forall|m: int| 0 <= m < after.len() implies (#[trigger] after[m]).visit_count >= 1
            && after[m].path@.len() > 0 by {
            assert(before.contains(after[m]));
        }
    }
    Ok(())
}

proof fn lemma_selection_is_listing(
    rows: Seq<PathEntry>,
    order: Seq<usize>,
    listing: Seq<(String, u128)>,
    key: SortKey,
    now: nat,
    limit: Option<u64>,
)
    requires
        distinct_paths(rows),
        rows.len() <= usize::MAX,
        is_selection(order, rows, key, now, limit),
        listing.len() == order.len(),
        forall|k: int|
            0 <= k < listing.len() ==> (#[trigger] listing[k]).0@ == rows[order[k] as int].path@
                && listing[k].1 == score_of(rows[order[k] as int].stats(), now),
    ensures
        is_listing(listing, table_of(rows), key, now, limit),
{
    let table = table_of(rows);
    lemma_table_rows(rows);
    lemma_table_len(rows);
    assert forall|k: int| 0 <= k < listing.len() implies table.dom().contains(
        (#[trigger] listing[k]).0@,
    ) && table[listing[k].0@] == rows[order[k] as int].stats() by {
        assert(order[k] < rows.len());
    }
    assert forall|a: int, b: int| 0 <= a < b < listing.len() implies crate::order::ranks_before(
        key,
        now,
        (#[trigger] listing[a]).0@,
        table[listing[a].0@],
        (#[trigger] listing[b]).0@,
        table[listing[b].0@],
    ) by {
        assert(crate::rank::entry_before(key, now, rows[order[a] as int], rows[order[b] as int]));
    }
    assert forall|p: Seq<char>| #[trigger] table.dom().contains(p) implies crate::listing::lists(
        listing,
        p,
    ) || (limit matches Some(k) && listing.len() == k && forall|a: int|
        0 <= a < listing.len() ==> crate::order::ranks_before(
            key,
            now,
            (#[trigger] listing[a]).0@,
            table[listing[a].0@],
            p,
            table[p],
        )) by {
        let j = row_of(rows, p);
        if order.contains(j as usize) {
            let a = choose|a: int| 0 <= a < order.len() && order[a] == j as usize;
            assert(listing[a].0@ == p);
        } else {
            assert forall|a: int| 0 <= a < listing.len() implies crate::order::ranks_before(
                key,
                now,
                (#[trigger] listing[a]).0@,
                table[listing[a].0@],
                p,
                table[p],
            ) by {
                assert(crate::rank::entry_before(key, now, rows[order[a] as int], rows[j]));
            }
        }
    }
}

fn listing_at(store: &Store, key: SortKey, limit: Option<u64>, now_millis: u64) -> (result: Result<
    Vec<(String, u128)>,
    FrecencyError,
>)
    requires
        store.wf(),
    ensures
        match result {
            Ok(listing) => store.is_ready() && is_listing(
                listing@,
                store@,
                key,
                now_millis as nat,
                limit,
            ),
            Err(e) => !store.is_ready() && e == FrecencyError::StorageError,
        },
{
    if !store.ready {
        return Err(FrecencyError::StorageError);
    }
    let total: usize = store.rows.len();
    let order: Vec<usize> = select_rows(&store.rows, key, now_millis, limit);
    let mut listing: Vec<(String, u128)> = Vec::new();
    let mut i: usize = 0;
    while i < order.len()
        invariant
            0 <= i <= order@.len(),
            listing@.len() == i,
            store.rows@.len() == total,
            crate::rank::names_rows(order@, store.rows@),
            forall|k: int|
                0 <= k < i ==> (#[trigger] listing@[k]).0@ == store.rows@[order@[k] as int].path@
                    && listing@[k].1 == score_of(
                    store.rows@[order@[k] as int].stats(),
                    now_millis as nat,
                ),
        decreases order@.len() - i,
    {
        let row = &store.rows[order[i]];
        listing.push((row.path.clone(), score(row, now_millis)));
        i += 1;
    }
    proof {
        lemma_selection_is_listing(
            store.rows@,
            order@,
            listing@,
            key,
            now_millis as nat,
            limit,
        );
    }
    Ok(listing)
}

/// The tracked paths with their scores at `now_millis`, highest score first;
/// among equal scores the more recent visit first, and among those the
/// smaller path. With a limit the listing stops after that many items. On a
/// store without schema the operation fails with `StorageError`.
pub fn fetch_scores_at(store: &Store, limit: Option<u64>, now_millis: u64) -> (result: Result<
    Vec<(String, u128)>,
    FrecencyError,
>)
    requires
        store.wf(),
    ensures
        match result {
            Ok(listing) => store.is_ready() && is_listing(
                listing@,
                store@,
                SortKey::Score,
                now_millis as nat,
                limit,
            ),
            Err(e) => !store.is_ready() && e == FrecencyError::StorageError,
        },
{
    listing_at(store, SortKey::Score, limit, now_millis)
}

/// The tracked paths with their scores at `now_millis`, most recent visit
/// first; among equal times the higher score first, and among those the
/// smaller path. The number shown with each path is its score, not the time
/// by which the listing is ordered. With a limit the listing stops after that
/// many items. On a store without schema the operation fails with
/// `StorageError`.
pub fn fetch_last_visit_at(store: &Store, limit: Option<u64>, now_millis: u64) -> (result: Result<
    Vec<(String, u128)>,
    FrecencyError,
>)
    requires
        store.wf(),
    ensures
        match result {
            Ok(listing) => store.is_ready() && is_listing(
                listing@,
                store@,
                SortKey::LastVisit,
                now_millis as nat,
                limit,
            ),
            Err(e) => !store.is_ready() && e == FrecencyError::StorageError,
        },
{
    listing_at(store, SortKey::LastVisit, limit, now_millis)
}

/// The listing by score as `fetch_scores_at` gives it, evaluated at the
/// current time. Whatever the clock says, the result is the listing at some
/// instant.
pub fn fetch_scores(store: &Store, limit: Option<u64>) -> (result: Result<
    Vec<(String, u128)>,
    FrecencyError,
>)
    requires
        store.wf(),
    ensures
        match result {
            Ok(listing) => store.is_ready() && exists|now: u64|
                is_listing(listing@, store@, SortKey::Score, now as nat, limit),
            Err(e) => !store.is_ready() && e == FrecencyError::StorageError,
        },
{
    let now: u64 = now_millis();
    let result = fetch_scores_at(store, limit, now);
    proof {
        if result is Ok {
            assert(is_listing(result->Ok_0@, store@, SortKey::Score, now as nat, limit));
        }
    }
    result
}

/// The listing by last visit as `fetch_last_visit_at` gives it, evaluated at
/// the current time. Whatever the clock says, the result is the listing at
/// some instant.
pub fn fetch_last_visit(store: &Store, limit: Option<u64>) -> (result: Result<
    Vec<(String, u128)>,
    FrecencyError,
>)
    requires
        store.wf(),
    ensures
        match result {
            Ok(listing) => store.is_ready() && exists|now: u64|
                is_listing(listing@, store@, SortKey::LastVisit, now as nat, limit),
            Err(e) => !store.is_ready() && e == FrecencyError::StorageError,
        },
{
    let now: u64 = now_millis();
    let result = fetch_last_visit_at(store, limit, now);
    proof {
        if result is Ok {
            assert(is_listing(result->Ok_0@, store@, SortKey::LastVisit, now as nat, limit));
        }
    }
    result
}

} // verus!
