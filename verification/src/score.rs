//! The scoring model: what a visit does to a path's statistics, and how the
//! statistics and the age of the last visit combine into a score.
use vstd::prelude::*;

verus! {

/// Length of a day in milliseconds.
pub const DAY_MILLIS: u64 = 86_400_000;

/// Length of a week in milliseconds.
pub const WEEK_MILLIS: u64 = 604_800_000;

/// Length of a thirty-day month in milliseconds.
pub const MONTH_MILLIS: u64 = 2_592_000_000;

/// The visit statistics kept for one path.
pub struct Stats {
    pub visit_count: nat,
    pub last_visit_millis: nat,
}

/// The record of one tracked path.
#[derive(Debug)]
pub struct PathEntry {
    /// The path, byte for byte as it was recorded.
    pub path: String,
    /// How many visits were recorded.
    pub visit_count: u64,
    /// When the most recent visit happened, in milliseconds.
    pub last_visit_millis: u64,
}

impl PathEntry {
    /// The statistics of this entry.
    pub open spec fn stats(&self) -> Stats {
        Stats {
            visit_count: self.visit_count as nat,
            last_visit_millis: self.last_visit_millis as nat,
        }
    }

    /// A copy of this entry.
    pub fn duplicate(&self) -> (copy: PathEntry)
        ensures
            copy == *self,
    {
        PathEntry {
            path: self.path.clone(),
            visit_count: self.visit_count,
            last_visit_millis: self.last_visit_millis,
        }
    }
}

/// Milliseconds elapsed at `now` since a visit at `last`. A visit stamped
/// later than `now` counts as having just happened.
pub open spec fn age_millis(last: nat, now: nat) -> nat {
    if now >= last {
        (now - last) as nat
    } else {
        0
    }
}

/// The recency multiplier of a visit that is `age` milliseconds old: 8 within
/// a day, 4 within a week, 2 within thirty days, 1 beyond that.
pub open spec fn recency_weight(age: nat) -> nat {
    if age <= DAY_MILLIS {
        8
    } else if age <= WEEK_MILLIS {
        4
    } else if age <= MONTH_MILLIS {
        2
    } else {
        1
    }
}

/// The frecency score at `now` of a path visited `count` times, most recently
/// at `last`: the visit count times the recency multiplier of its age.
pub open spec fn frecency(count: nat, last: nat, now: nat) -> nat {
    count * recency_weight(age_millis(last, now))
}

/// The frecency score of `stats` at `now`.
pub open spec fn score_of(stats: Stats, now: nat) -> nat {
    frecency(stats.visit_count, stats.last_visit_millis, now)
}

/// The statistics of a path after one more visit at `now`: a first visit
/// starts the count at one, a later visit adds one to it, and either way the
/// time of the last visit is replaced by `now`.
pub open spec fn visited(prior: Option<Stats>, now: nat) -> Stats {
    match prior {
        Some(stats) => Stats { visit_count: stats.visit_count + 1, last_visit_millis: now },
        None => Stats { visit_count: 1, last_visit_millis: now },
    }
}

/// The statistics of `existing`, if there is an entry.
pub open spec fn stats_of(existing: Option<&PathEntry>) -> Option<Stats> {
    match existing {
        Some(entry) => Some(entry.stats()),
        None => None,
    }
}

/// The recency multiplier of a visit at `last`, evaluated at `now`.
pub fn weight_at(last: u64, now: u64) -> (w: u64)
    ensures
        w == recency_weight(age_millis(last as nat, now as nat)),
        1 <= w <= 8,
{
    let age: u64 = if now >= last { now - last } else { 0 };
    if age <= DAY_MILLIS {
        8
    } else if age <= WEEK_MILLIS {
        4
    } else if age <= MONTH_MILLIS {
        2
    } else {
        1
    }
}

/// The score of a path visited `visit_count` times, most recently at
/// `last_visit_millis`, evaluated at `now_millis`.
pub fn score_at(visit_count: u64, last_visit_millis: u64, now_millis: u64) -> (s: u128)
    ensures
        s == frecency(visit_count as nat, last_visit_millis as nat, now_millis as nat),
{
    let w: u64 = weight_at(last_visit_millis, now_millis);
    assert(visit_count * w <= u64::MAX * 8) by (nonlinear_arith)
        requires
            visit_count <= u64::MAX,
            1 <= w <= 8,
    ;
    let wide_count: u128 = visit_count as u128;
    let wide_weight: u128 = w as u128;
    wide_count * wide_weight
}

/// The frecency score of `entry` at `now_millis`. It depends on nothing but
/// the entry's statistics and the instant of evaluation.
pub fn score(entry: &PathEntry, now_millis: u64) -> (s: u128)
    ensures
        s == score_of(entry.stats(), now_millis as nat),
{
    score_at(entry.visit_count, entry.last_visit_millis, now_millis)
}

/// Records one visit to `path` at `now_millis`, given the entry that exists
/// for that path, if any. The count of an existing entry must leave room for
/// one more visit.
pub fn record_visit(path: &str, existing: Option<&PathEntry>, now_millis: u64) -> (entry: PathEntry)
    requires
        existing matches Some(prior) ==> prior.visit_count < u64::MAX,
    ensures
        entry.path@ == path@,
        entry.stats() == visited(stats_of(existing), now_millis as nat),
{
    let visit_count: u64 = match existing {
        Some(prior) => prior.visit_count + 1,
        None => 1,
    };
    PathEntry { path: path.to_owned(), visit_count, last_visit_millis: now_millis }
}

/// More visits never lower the score: of two paths last visited at the same
/// time, the one with the higher visit count scores at least as high.
pub proof fn lemma_score_monotonic_in_visits(fewer: nat, more: nat, last: nat, now: nat)
    requires
        fewer <= more,
    ensures
        frecency(fewer, last, now) <= frecency(more, last, now),
{
    let w = recency_weight(age_millis(last, now));
    assert(fewer * w <= more * w) by (nonlinear_arith)
        requires
            fewer <= more,
            w >= 0,
    ;
}

/// The recency multiplier never grows with age.
pub proof fn lemma_weight_decreases_with_age(younger: nat, older: nat)
    requires
        younger <= older,
    ensures
        recency_weight(older) <= recency_weight(younger),
{
}

/// A more recent visit never lowers the score: of two paths with the same
/// visit count, the one whose last visit is older scores at most as high.
pub proof fn lemma_score_monotonic_in_recency(count: nat, earlier: nat, later: nat, now: nat)
    requires
        earlier <= later,
    ensures
        frecency(count, earlier, now) <= frecency(count, later, now),
{
    let old_weight = recency_weight(age_millis(earlier, now));
    let new_weight = recency_weight(age_millis(later, now));
    lemma_weight_decreases_with_age(age_millis(later, now), age_millis(earlier, now));
    assert(count * old_weight <= count * new_weight) by (nonlinear_arith)
        requires
            old_weight <= new_weight,
            count >= 0,
    ;
}

} // verus!
