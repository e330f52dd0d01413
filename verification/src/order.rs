//! The orders in which paths are listed: byte-wise order on the paths
//! themselves, and the two ranking orders built on score and last visit.
use vstd::prelude::*;
use vstd::string::StringSliceAdditionalSpecFns;
use vstd::utf8::encode_utf8;
use vstd::utf8::encode_utf8_decode_utf8;
use crate::score::PathEntry;
use crate::score::Stats;
use crate::score::score_of;
use crate::score::score_at;

verus! {

/// How one path stands to another in byte-wise order.
#[derive(Debug, Clone, Copy, PartialEq, Eq, Structural)]
pub enum Placement {
    Before,
    Same,
    After,
}

/// The key by which a listing is ordered first.
#[derive(Debug, Clone, Copy, PartialEq, Eq, Structural)]
pub enum SortKey {
    /// Highest score first; among equal scores the more recent visit first.
    Score,
    /// Most recent visit first; among equal times the higher score first.
    LastVisit,
}

/// Lexicographic order on byte strings, looking only at positions from `i`
/// on: `a` comes first if it ends first, or holds the smaller byte at the
/// first position where the two differ.
pub open spec fn bytes_before_from(a: Seq<u8>, b: Seq<u8>, i: int) -> bool
    decreases a.len() - i,
{
    if i >= b.len() {
        false
    } else if i >= a.len() {
        true
    } else if a[i] != b[i] {
        a[i] < b[i]
    } else {
        bytes_before_from(a, b, i + 1)
    }
}

/// Strict lexicographic order on byte strings.
pub open spec fn bytes_before(a: Seq<u8>, b: Seq<u8>) -> bool {
    bytes_before_from(a, b, 0)
}

/// Strict order on paths: lexicographic order of their UTF-8 bytes.
pub open spec fn path_before(a: Seq<char>, b: Seq<char>) -> bool {
    bytes_before(encode_utf8(a), encode_utf8(b))
}

/// The strict ranking order of a listing evaluated at `now`: whether the path
/// `a_path` with statistics `a` is listed before `b_path` with statistics `b`.
/// Under either key the last tie-break is the order of the paths.
pub open spec fn ranks_before(
    key: SortKey,
    now: nat,
    a_path: Seq<char>,
    a: Stats,
    b_path: Seq<char>,
    b: Stats,
) -> bool {
    let a_score = score_of(a, now);
    let b_score = score_of(b, now);
    let a_last = a.last_visit_millis;
    let b_last = b.last_visit_millis;
    match key {
        SortKey::Score => {
            ||| a_score > b_score
            ||| a_score == b_score && a_last > b_last
            ||| a_score == b_score && a_last == b_last && path_before(a_path, b_path)
        },
        SortKey::LastVisit => {
            ||| a_last > b_last
            ||| a_last == b_last && a_score > b_score
            ||| a_last == b_last && a_score == b_score && path_before(a_path, b_path)
        },
    }
}

proof fn lemma_bytes_agree_from(a: Seq<u8>, b: Seq<u8>, i: int)
    requires
        0 <= i,
        !bytes_before_from(a, b, i),
        !bytes_before_from(b, a, i),
    ensures
        a.len() == b.len() || (a.len() <= i && b.len() <= i),
        forall|j: int| i <= j < a.len() ==> a[j] == b[j],
    decreases a.len() - i,
{
    if i < a.len() && i < b.len() {
        lemma_bytes_agree_from(a, b, i + 1);
    }
}

proof fn lemma_bytes_asymmetric_from(a: Seq<u8>, b: Seq<u8>, i: int)
    requires
        0 <= i,
        bytes_before_from(a, b, i),
    ensures
        !bytes_before_from(b, a, i),
    decreases a.len() - i,
{
    if i < a.len() && i < b.len() && a[i] == b[i] {
        lemma_bytes_asymmetric_from(a, b, i + 1);
    }
}

proof fn lemma_bytes_transitive_from(a: Seq<u8>, b: Seq<u8>, c: Seq<u8>, i: int)
    requires
        0 <= i,
        bytes_before_from(a, b, i),
        bytes_before_from(b, c, i),
    ensures
        bytes_before_from(a, c, i),
    decreases a.len() - i,
{
    if i < a.len() && i < b.len() && i < c.len() && a[i] == b[i] && b[i] == c[i] {
        lemma_bytes_transitive_from(a, b, c, i + 1);
    }
}

/// Byte-wise order never places a string before itself, nor two strings
/// before each other.
pub proof fn lemma_bytes_asymmetric(a: Seq<u8>, b: Seq<u8>)
    requires
        bytes_before(a, b),
    ensures
        !bytes_before(b, a),
        a != b,
{
    lemma_bytes_asymmetric_from(a, b, 0);
}

/// Byte-wise order is transitive.
pub proof fn lemma_bytes_transitive(a: Seq<u8>, b: Seq<u8>, c: Seq<u8>)
    requires
        bytes_before(a, b),
        bytes_before(b, c),
    ensures
        bytes_before(a, c),
{
    lemma_bytes_transitive_from(a, b, c, 0);
}

/// Byte-wise order is total: of two different strings one comes first.
pub proof fn lemma_bytes_total(a: Seq<u8>, b: Seq<u8>)
    requires
        a != b,
    ensures
        bytes_before(a, b) || bytes_before(b, a),
{
    if !bytes_before(a, b) && !bytes_before(b, a) {
        lemma_bytes_agree_from(a, b, 0);
        assert(a =~= b);
    }
}

/// Two paths with the same UTF-8 bytes are the same path.
pub proof fn lemma_path_bytes_injective(a: Seq<char>, b: Seq<char>)
    requires
        encode_utf8(a) == encode_utf8(b),
    ensures
        a == b,
{
    encode_utf8_decode_utf8(a);
    encode_utf8_decode_utf8(b);
}

/// The ranking order is irreflexive and asymmetric: no entry is listed before
/// itself, and no two entries before each other.
pub proof fn lemma_ranks_asymmetric(
    key: SortKey,
    now: nat,
    a_path: Seq<char>,
    a: Stats,
    b_path: Seq<char>,
    b: Stats,
)
    requires
        ranks_before(key, now, a_path, a, b_path, b),
    ensures
        !ranks_before(key, now, b_path, b, a_path, a),
        !(a_path == b_path && a == b),
{
    if path_before(a_path, b_path) {
        lemma_bytes_asymmetric(encode_utf8(a_path), encode_utf8(b_path));
    }
}

/// The ranking order is transitive.
pub proof fn lemma_ranks_transitive(
    key: SortKey,
    now: nat,
    a_path: Seq<char>,
    a: Stats,
    b_path: Seq<char>,
    b: Stats,
    c_path: Seq<char>,
    c: Stats,
)
    requires
        ranks_before(key, now, a_path, a, b_path, b),
        ranks_before(key, now, b_path, b, c_path, c),
    ensures
        ranks_before(key, now, a_path, a, c_path, c),
{
    if path_before(a_path, b_path) && path_before(b_path, c_path) {
        lemma_bytes_transitive(encode_utf8(a_path), encode_utf8(b_path), encode_utf8(c_path));
    }
}

/// The ranking order is total on entries for different paths: one of the two
/// is listed before the other.
pub proof fn lemma_ranks_total(
    key: SortKey,
    now: nat,
    a_path: Seq<char>,
    a: Stats,
    b_path: Seq<char>,
    b: Stats,
)
    requires
        a_path != b_path,
    ensures
        ranks_before(key, now, a_path, a, b_path, b) || ranks_before(key, now, b_path, b, a_path, a),
{
    if encode_utf8(a_path) == encode_utf8(b_path) {
        lemma_path_bytes_injective(a_path, b_path);
    }
    lemma_bytes_total(encode_utf8(a_path), encode_utf8(b_path));
}

/// Places `a` relative to `b` in byte-wise order.
pub fn place_bytes(a: &[u8], b: &[u8]) -> (placement: Placement)
    ensures
        placement == Placement::Before <==> bytes_before(a@, b@),
        placement == Placement::After <==> bytes_before(b@, a@),
        placement == Placement::Same <==> a@ == b@,
{
    let mut i: usize = 0;
    while i < a.len() && i < b.len()
        invariant
            0 <= i <= a@.len(),
            i <= b@.len(),
            forall|j: int| 0 <= j < i ==> a@[j] == b@[j],
            bytes_before_from(a@, b@, i as int) == bytes_before(a@, b@),
            bytes_before_from(b@, a@, i as int) == bytes_before(b@, a@),
        decreases a@.len() - i,
    {
        let x: u8 = a[i];
        let y: u8 = b[i];
        if x < y {
            proof {
                lemma_bytes_asymmetric(a@, b@);
            }
            return Placement::Before;
        }
        if y < x {
            proof {
                lemma_bytes_asymmetric(b@, a@);
            }
            return Placement::After;
        }
        i += 1;
    }
    if i < b.len() {
        proof {
            lemma_bytes_asymmetric(a@, b@);
        }
        Placement::Before
    } else if i < a.len() {
        proof {
            lemma_bytes_asymmetric(b@, a@);
        }
        Placement::After
    } else {
        proof {
            assert(a@ =~= b@);
            if bytes_before(a@, b@) {
                lemma_bytes_asymmetric(a@, b@);
            }
        }
        Placement::Same
    }
}

/// Places the path `a` relative to the path `b`.
pub fn place_paths(a: &str, b: &str) -> (placement: Placement)
    ensures
        placement == Placement::Before <==> path_before(a@, b@),
        placement == Placement::After <==> path_before(b@, a@),
        placement == Placement::Same <==> a@ == b@,
{
    proof {
        if encode_utf8(a@) == encode_utf8(b@) {
            lemma_path_bytes_injective(a@, b@);
        }
    }
    place_bytes(a.as_bytes(), b.as_bytes())
}

/// Whether two paths are the same, byte for byte.
pub fn same_path(a: &str, b: &str) -> (same: bool)
    ensures
        same == (a@ == b@),
{
    match place_paths(a, b) {
        Placement::Same => true,
        _ => false,
    }
}

/// Whether `a` is listed before `b` in the ranking by `key` evaluated at
/// `now_millis`.
pub fn entry_ranks_before(key: SortKey, now_millis: u64, a: &PathEntry, b: &PathEntry) -> (before:
    bool)
    ensures
        before == ranks_before(key, now_millis as nat, a.path@, a.stats(), b.path@, b.stats()),
{
    let a_score: u128 = score_at(a.visit_count, a.last_visit_millis, now_millis);
    let b_score: u128 = score_at(b.visit_count, b.last_visit_millis, now_millis);
    let a_last: u64 = a.last_visit_millis;
    let b_last: u64 = b.last_visit_millis;
    match key {
        SortKey::Score => {
            if a_score != b_score {
                a_score > b_score
            } else if a_last != b_last {
                a_last > b_last
            } else {
                place_paths(a.path.as_str(), b.path.as_str()) == Placement::Before
            }
        },
        SortKey::LastVisit => {
            if a_last != b_last {
                a_last > b_last
            } else if a_score != b_score {
                a_score > b_score
            } else {
                place_paths(a.path.as_str(), b.path.as_str()) == Placement::Before
            }
        },
    }
}

} // verus!
