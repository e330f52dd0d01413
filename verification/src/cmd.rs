//! The commands: what each does to the store and what it shows.
use vstd::prelude::*;
use vstd::string::StringExecFns;
use crate::CmdError;
use crate::clock::now_millis;
use crate::listing::is_listing;
use crate::order::SortKey;
use crate::score::Stats;
use crate::store::FrecencyError;
use crate::store::Store;
use crate::store::add_visit;
use crate::store::after_visit;
use crate::store::fetch_last_visit_at;
use crate::store::fetch_scores_at;
use crate::store::named_paths;
use crate::store::remove_paths;
use crate::store::visit_outcome;

verus! {

/// Record a visit to a path.
#[derive(Debug)]
pub struct Add {
    /// The path that was visited.
    pub path: String,
}

/// Show the tracked paths.
#[derive(Debug)]
pub struct Fetch {
    /// Show at most this many paths.
    pub limit: Option<u64>,
    /// Order by last visit, not by score.
    pub sort_by_last_visit: bool,
    /// Show each path's score before the path.
    pub with_score: bool,
    /// Show the listing last rank first.
    pub asc: bool,
}

impl Fetch {
    /// The key by which this listing is ordered.
    pub open spec fn key(&self) -> SortKey {
        if self.sort_by_last_visit {
            SortKey::LastVisit
        } else {
            SortKey::Score
        }
    }
}

/// The character for the decimal digit `d`.
pub open spec fn digit_char(d: nat) -> char {
    if d == 0 {
        '0'
    } else if d == 1 {
        '1'
    } else if d == 2 {
        '2'
    } else if d == 3 {
        '3'
    } else if d == 4 {
        '4'
    } else if d == 5 {
        '5'
    } else if d == 6 {
        '6'
    } else if d == 7 {
        '7'
    } else if d == 8 {
        '8'
    } else {
        '9'
    }
}

/// The decimal numeral of `n`, without sign or leading zeros.
pub open spec fn decimal(n: nat) -> Seq<char>
    decreases n,
{
    if n < 10 {
        seq![digit_char(n)]
    } else {
        decimal(n / 10).push(digit_char(n % 10))
    }
}

/// The line for a path shown alone.
pub open spec fn path_line(path: Seq<char>) -> Seq<char> {
    path
}

/// The line for a path shown with its score: the score in decimal, four
/// spaces, the path.
pub open spec fn score_line(path: Seq<char>, score: nat) -> Seq<char> {
    decimal(score) + "    "@ + path
}

/// The line for one item of a listing.
pub open spec fn line_of(item: (String, u128), with_score: bool) -> Seq<char> {
    if with_score {
        score_line(item.0@, item.1 as nat)
    } else {
        path_line(item.0@)
    }
}

/// The paths among `probed` that were found missing, in their order.
pub open spec fn stale_of(probed: Seq<(String, bool)>) -> Seq<Seq<char>>
    decreases probed.len(),
{
    if probed.len() == 0 {
        Seq::empty()
    } else if probed.last().1 {
        stale_of(probed.drop_last())
    } else {
        stale_of(probed.drop_last()).push(probed.last().0@)
    }
}

/// The views of a sequence of string slices.
pub open spec fn texts_of(slices: Seq<&str>) -> Seq<Seq<char>> {
    slices.map_values(|s: &str| s@)
}

fn digit_text(d: u8) -> (text: &'static str)
    requires
        d < 10,
    ensures
        text@ == seq![digit_char(d as nat)],
{
    proof {
        reveal_strlit("0");
        reveal_strlit("1");
        reveal_strlit("2");
        reveal_strlit("3");
        reveal_strlit("4");
        reveal_strlit("5");
        reveal_strlit("6");
        reveal_strlit("7");
        reveal_strlit("8");
        reveal_strlit("9");
    }
    let text = if d == 0 {
        "0"
    } else if d == 1 {
        "1"
    } else if d == 2 {
        "2"
    } else if d == 3 {
        "3"
    } else if d == 4 {
        "4"
    } else if d == 5 {
        "5"
    } else if d == 6 {
        "6"
    } else if d == 7 {
        "7"
    } else if d == 8 {
        "8"
    } else {
        "9"
    };
    assert(text@ =~= seq![digit_char(d as nat)]);
    text
}

/// Writes `n` in decimal.
pub fn decimal_text(n: u128) -> (text: String)
    ensures
        text@ == decimal(n as nat),
    decreases n,
{
    if n < 10 {
        digit_text(n as u8).to_owned()
    } else {
        let mut text = decimal_text(n / 10);
        text.append(digit_text((n % 10) as u8));
        text
    }
}

/// The line that shows a path alone.
pub fn show_only_path(path: &str, score: u128) -> (line: String)
    ensures
        line@ == path_line(path@),
{
    path.to_owned()
}

/// The line that shows a path with its score.
pub fn show_with_score(path: &str, score: u128) -> (line: String)
    ensures
        line@ == score_line(path@, score as nat),
{
    let mut line = decimal_text(score);
    line.append("    ");
    line.append(path);
    line
}

/// The lines that show `listing`, one for each item and in its order, or in
/// the opposite order where `asc` asks for the last rank first.
pub fn show_listing(listing: &Vec<(String, u128)>, with_score: bool, asc: bool) -> (lines: Vec<String>)
    ensures
        lines@.len() == listing@.len(),
        forall|i: int|
            0 <= i < lines@.len() ==> (#[trigger] lines@[i])@ == line_of(
                listing@[if asc {
                    listing@.len() - 1 - i
                } else {
                    i
                }],
                with_score,
            ),
{
    let mut lines: Vec<String> = Vec::new();
    let total: usize = listing.len();
    let mut i: usize = 0;
    while i < total
        invariant
            total == listing@.len(),
            0 <= i <= total,
            lines@.len() == i,
            forall|k: int|
                0 <= k < i ==> (#[trigger] lines@[k])@ == line_of(
                    listing@[if asc {
                        total - 1 - k
                    } else {
                        k
                    }],
                    with_score,
                ),
        decreases total - i,
    {
        let at: usize = if asc { total - 1 - i } else { i };
        let item = &listing[at];
        let line = if with_score {
            show_with_score(item.0.as_str(), item.1)
        } else {
            show_only_path(item.0.as_str(), item.1)
        };
        lines.push(line);
        i += 1;
    }
    lines
}

/// The text that shows `lines`: each line followed by one newline.
pub open spec fn text_of_lines(lines: Seq<String>) -> Seq<char>
    decreases lines.len(),
{
    if lines.len() == 0 {
        Seq::empty()
    } else {
        text_of_lines(lines.drop_last()) + lines.last()@ + seq!['\n']
    }
}

/// The text to write out for `lines`: the lines in their order, each ended
/// by one newline.
pub fn shown_text(lines: &Vec<String>) -> (text: String)
    ensures
        text@ == text_of_lines(lines@),
{
    let mut text = String::new();
    let mut i: usize = 0;
    while i < lines.len()
        invariant
            0 <= i <= lines@.len(),
            text@ == text_of_lines(lines@.take(i as int)),
        decreases lines@.len() - i,
    {
        proof {
            reveal_strlit("\n");
            assert("\n"@ =~= seq!['\n']);
            assert(lines@.take(i + 1).drop_last() =~= lines@.take(i as int));
        }
        text.append(lines[i].as_str());
        text.append("\n");
        i += 1;
    }
    proof {
        assert(lines@.take(lines@.len() as int) =~= lines@);
    }
    text
}

/// Records the visit that `add` names at `now_millis`, as `add_visit` does.
pub fn run_add_at(store: &mut Store, add: &Add, now_millis: u64) -> (result: Result<(), CmdError>)
    requires
        old(store).wf(),
    ensures
        final(store).wf(),
        match result {
            Ok(_) => visit_outcome(old(store)@, add.path@) is Ok && final(store).is_ready()
                && final(store)@ == after_visit(old(store)@, add.path@, now_millis as nat),
            Err(CmdError::FrecencyError(e)) => visit_outcome(old(store)@, add.path@) == Err::<
                (),
                FrecencyError,
            >(e) && *final(store) == *old(store),
            Err(_) => false,
        },
{
    match add_visit(store, add.path.as_str(), now_millis) {
        Ok(_) => Ok(()),
        Err(e) => Err(CmdError::FrecencyError(e)),
    }
}

/// Records the visit that `add` names at the current time. Whatever the
/// clock says, the visit is recorded at some instant or refused as
/// `add_visit` refuses it.
pub fn run_add(store: &mut Store, add: &Add) -> (result: Result<(), CmdError>)
    requires
        old(store).wf(),
    ensures
        final(store).wf(),
        match result {
            Ok(_) => visit_outcome(old(store)@, add.path@) is Ok && final(store).is_ready()
                && exists|now: u64|
                final(store)@ == after_visit(old(store)@, add.path@, now as nat),
            Err(CmdError::FrecencyError(e)) => visit_outcome(old(store)@, add.path@) == Err::<
                (),
                FrecencyError,
            >(e) && *final(store) == *old(store),
            Err(_) => false,
        },
{
    let now: u64 = now_millis();
    let result = run_add_at(store, add, now);
    proof {
        if result is Ok {
            assert(final(store)@ == after_visit(old(store)@, add.path@, now as nat));
        }
    }
    result
}

/// The listing that `fetch` asks for, evaluated at `now_millis`: ranked by
/// the key and cut to the limit that `fetch` names. It fails as the store's
/// listings fail.
pub fn run_fetch_at(store: &Store, fetch: &Fetch, now_millis: u64) -> (result: Result<
    Vec<(String, u128)>,
    CmdError,
>)
    requires
        store.wf(),
    ensures
        match result {
            Ok(listing) => store.is_ready() && is_listing(
                listing@,
                store@,
                fetch.key(),
                now_millis as nat,
                fetch.limit,
            ),
            Err(CmdError::FrecencyError(e)) => !store.is_ready() && e == FrecencyError::StorageError,
            Err(_) => false,
        },
{
    let fetched = if fetch.sort_by_last_visit {
        fetch_last_visit_at(store, fetch.limit, now_millis)
    } else {
        fetch_scores_at(store, fetch.limit, now_millis)
    };
    match fetched {
        Ok(listing) => Ok(listing),
        Err(e) => Err(CmdError::FrecencyError(e)),
    }
}

/// The listing that `fetch` asks for, evaluated at the current time.
pub fn run_fetch(store: &Store, fetch: &Fetch) -> (result: Result<Vec<(String, u128)>, CmdError>)
    requires
        store.wf(),
    ensures
        match result {
            Ok(listing) => store.is_ready() && exists|now: u64|
                is_listing(listing@, store@, fetch.key(), now as nat, fetch.limit),
            Err(CmdError::FrecencyError(e)) => !store.is_ready() && e == FrecencyError::StorageError,
            Err(_) => false,
        },
{
    let now: u64 = now_millis();
    let result = run_fetch_at(store, fetch, now);
    proof {
        if result is Ok {
            assert(is_listing(result->Ok_0@, store@, fetch.key(), now as nat, fetch.limit));
        }
    }
    result
}

/// The paths among `probed` that were found missing: each path comes with
/// the answer to whether it still exists.
pub fn stale_paths<'a>(probed: &'a Vec<(String, bool)>) -> (stale: Vec<&'a str>)
    ensures
        texts_of(stale@) == stale_of(probed@),
{
    let mut stale: Vec<&'a str> = Vec::new();
    let mut i: usize = 0;
    while i < probed.len()
        invariant
            0 <= i <= probed@.len(),
            texts_of(stale@) == stale_of(probed@.take(i as int)),
        decreases probed@.len() - i,
    {
        let ghost held = stale@;
        proof {
            assert(probed@.take(i + 1).drop_last() =~= probed@.take(i as int));
        }
        if !probed[i].1 {
            stale.push(probed[i].0.as_str());
            proof {
                assert(texts_of(stale@) =~= texts_of(held).push(probed@[i as int].0@));
            }
        }
        i += 1;
    }
    proof {
        assert(probed@.take(probed@.len() as int) =~= probed@);
    }
    stale
}

/// A path is in `stale_of(probed)` exactly if `probed` holds it with the
/// answer that it is missing.
pub proof fn lemma_stale_members(probed: Seq<(String, bool)>, path: Seq<char>)
    ensures
        stale_of(probed).contains(path) <==> exists|i: int|
            0 <= i < probed.len() && (#[trigger] probed[i]).0@ == path && !probed[i].1,
    decreases probed.len(),
{
    if probed.len() > 0 {
        let rest = probed.drop_last();
        lemma_stale_members(rest, path);
        if stale_of(probed).contains(path) {
            let k = choose|k: int| 0 <= k < stale_of(probed).len() && stale_of(probed)[k] == path;
            if !probed.last().1 && k == stale_of(rest).len() {
                assert(probed[probed.len() - 1].0@ == path);
            } else {
                assert(stale_of(rest)[k] == path);
                let i = choose|i: int| 0 <= i < rest.len() && (#[trigger] rest[i]).0@ == path && !rest[i].1;
                assert(probed[i] == rest[i]);
            }
        }
        if exists|i: int| 0 <= i < probed.len() && (#[trigger] probed[i]).0@ == path && !probed[i].1 {
            let i = choose|i: int|
                0 <= i < probed.len() && (#[trigger] probed[i]).0@ == path && !probed[i].1;
            if i < rest.len() {
                assert(rest[i] == probed[i]);
                assert(stale_of(rest).contains(path));
                let k = choose|k: int| 0 <= k < stale_of(rest).len() && stale_of(rest)[k] == path;
                assert(stale_of(probed)[k] == path);
            } else {
                assert(stale_of(probed)[stale_of(rest).len() as int] == path);
            }
        }
    }
}

/// The set of the paths that `probed` reports missing.
pub open spec fn missing_paths(probed: Seq<(String, bool)>) -> Set<Seq<char>> {
    Set::new(
        |p: Seq<char>|
            exists|i: int| 0 <= i < probed.len() && (#[trigger] probed[i]).0@ == p && !probed[i].1,
    )
}

/// A sweep that finds every path present removes nothing: no path is
/// reported missing, and the table stays as it was.
pub proof fn lemma_nothing_missing_removes_nothing(
    table: Map<Seq<char>, Stats>,
    probed: Seq<(String, bool)>,
)
    requires
        forall|i: int| 0 <= i < probed.len() ==> (#[trigger] probed[i]).1,
    ensures
        missing_paths(probed) == Set::<Seq<char>>::empty(),
        table.remove_keys(missing_paths(probed)) == table,
{
    assert(missing_paths(probed) =~= Set::<Seq<char>>::empty());
    assert(table.remove_keys(missing_paths(probed)) =~= table);
}

/// Removes from the store the paths that `probed` reports missing, all at
/// once. It fails as `remove_paths` fails.
pub fn run_remove_not_exists(store: &mut Store, probed: &Vec<(String, bool)>) -> (result: Result<
    (),
    CmdError,
>)
    requires
        old(store).wf(),
    ensures
        final(store).wf(),
        final(store).is_ready() == old(store).is_ready(),
        match result {
            Ok(_) => old(store).is_ready() && final(store)@ == old(store)@.remove_keys(
                missing_paths(probed@),
            ),
            Err(CmdError::FrecencyError(e)) => !old(store).is_ready() && e
                == FrecencyError::StorageError && *final(store) == *old(store),
            Err(_) => false,
        },
{
    let stale = stale_paths(probed);
    proof {
        assert(named_paths(stale@) =~= missing_paths(probed@)) by {
            assert forall|p: Seq<char>| named_paths(stale@).contains(p) <==> missing_paths(
                probed@,
            ).contains(p) by {
                lemma_stale_members(probed@, p);
                if named_paths(stale@).contains(p) {
                    let k = choose|k: int| 0 <= k < stale@.len() && (#[trigger] stale@[k])@ == p;
                    assert(texts_of(stale@)[k] == p);
                }
                if stale_of(probed@).contains(p) {
                    let k = choose|k: int|
                        0 <= k < stale_of(probed@).len() && stale_of(probed@)[k] == p;
                    assert(texts_of(stale@)[k] == stale@[k]@);
                }
            }
        }
    }
    match remove_paths(store, stale.as_slice()) {
        Ok(_) => Ok(()),
        Err(e) => Err(CmdError::FrecencyError(e)),
    }
}

} // verus!
