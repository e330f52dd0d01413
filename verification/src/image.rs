//! The image of a store: the bytes under which it is kept between runs.
//!
//! A store without schema has the empty image. A store with schema has an
//! image that begins with an eight-byte header and goes on with one record
//! for each row: the visit count, the time of the last visit and the length
//! of the path in bytes, each as eight bytes with the low byte first, and
//! then the path in UTF-8.
use vstd::prelude::*;
use vstd::bytes::lemma_auto_spec_u64_to_from_le_bytes;
use vstd::bytes::spec_u64_from_le_bytes;
use vstd::bytes::spec_u64_to_le_bytes;
use vstd::bytes::u64_from_le_bytes;
use vstd::bytes::u64_to_le_bytes;
use vstd::slice::slice_subrange;
use vstd::string::StrSliceExecFns;
use vstd::utf8::decode_utf8;
use vstd::utf8::encode_utf8;
use vstd::utf8::encode_utf8_decode_utf8;
use vstd::utf8::encode_utf8_valid_utf8;
use vstd::utf8::valid_utf8;
use crate::order::same_path;
use crate::rank::distinct_paths;
use crate::score::PathEntry;
use crate::score::Stats;
use crate::store::FrecencyError;
use crate::store::Store;
use crate::store::has_row;
use crate::store::lemma_table_rows;
use crate::store::row_of;
use crate::store::table_of;
use crate::store::valid_rows;

verus! {

/// One record of an image.
pub struct Row {
    pub path: Seq<char>,
    pub visit_count: u64,
    pub last_visit_millis: u64,
}

/// What an image holds: whether there is a schema, and the rows.
pub struct Content {
    pub ready: bool,
    pub rows: Seq<Row>,
}

impl Row {
    /// The statistics of this record.
    pub open spec fn stats(self) -> Stats {
        Stats {
            visit_count: self.visit_count as nat,
            last_visit_millis: self.last_visit_millis as nat,
        }
    }
}

/// The record that stands for `entry`.
pub open spec fn row_for(entry: PathEntry) -> Row {
    Row {
        path: entry.path@,
        visit_count: entry.visit_count,
        last_visit_millis: entry.last_visit_millis,
    }
}

/// The records that stand for `entries`.
pub open spec fn rows_for(entries: Seq<PathEntry>) -> Seq<Row> {
    entries.map_values(|e: PathEntry| row_for(e))
}

/// The bytes with which every image of a store with schema begins.
pub open spec fn header() -> Seq<u8> {
    seq![0x46u8, 0x52u8, 0x43u8, 0x59u8, 0x00u8, 0x00u8, 0x00u8, 0x01u8]
}

/// No two records are for the same path.
pub open spec fn distinct_rows(rows: Seq<Row>) -> bool {
    forall|i: int, j: int| 0 <= i < j < rows.len() ==> rows[i].path != rows[j].path
}

/// A record that an image may hold: visited at least once, for a path that
/// is not empty and whose length in bytes fits the length field.
pub open spec fn storable(row: Row) -> bool {
    &&& row.visit_count >= 1
    &&& row.path.len() > 0
    &&& encode_utf8(row.path).len() <= u64::MAX
}

/// The table that the records stand for.
pub open spec fn rows_table(rows: Seq<Row>) -> Map<Seq<char>, Stats> {
    Map::new(
        |p: Seq<char>| exists|i: int| 0 <= i < rows.len() && (#[trigger] rows[i]).path == p,
        |p: Seq<char>|
            rows[choose|i: int| 0 <= i < rows.len() && (#[trigger] rows[i]).path == p].stats(),
    )
}

/// The bytes of one record.
pub open spec fn row_image(row: Row) -> Seq<u8> {
    spec_u64_to_le_bytes(row.visit_count) + spec_u64_to_le_bytes(row.last_visit_millis)
        + spec_u64_to_le_bytes(encode_utf8(row.path).len() as u64) + encode_utf8(row.path)
}

/// The bytes of the records, one after the other.
pub open spec fn rows_image(rows: Seq<Row>) -> Seq<u8>
    decreases rows.len(),
{
    if rows.len() == 0 {
        Seq::empty()
    } else {
        row_image(rows.first()) + rows_image(rows.drop_first())
    }
}

/// The image of a store with the given content.
pub open spec fn image_of(content: Content) -> Seq<u8> {
    if content.ready {
        header() + rows_image(content.rows)
    } else {
        Seq::empty()
    }
}

/// The record at the start of `bytes` and the number of bytes it takes, if
/// `bytes` starts with a whole record that an image may hold.
pub open spec fn parse_row(bytes: Seq<u8>) -> Option<(Row, int)> {
    if bytes.len() < 24 {
        None
    } else {
        let visit_count = spec_u64_from_le_bytes(bytes.subrange(0, 8));
        let last_visit_millis = spec_u64_from_le_bytes(bytes.subrange(8, 16));
        let size = spec_u64_from_le_bytes(bytes.subrange(16, 24));
        if bytes.len() < 24 + size {
            None
        } else {
            let path_bytes = bytes.subrange(24, 24 + size);
            if visit_count == 0 || !valid_utf8(path_bytes) || decode_utf8(path_bytes).len() == 0 {
                None
            } else {
                Some((Row { path: decode_utf8(path_bytes), visit_count, last_visit_millis }, 24 + size))
            }
        }
    }
}

/// The records that `bytes` consist of, if they consist of whole records.
pub open spec fn parse_rows(bytes: Seq<u8>) -> Option<Seq<Row>>
    decreases bytes.len(),
{
    if bytes.len() == 0 {
        Some(Seq::empty())
    } else {
        match parse_row(bytes) {
            Some((row, used)) => if 0 < used <= bytes.len() {
                match parse_rows(bytes.skip(used)) {
                    Some(rest) => Some(seq![row] + rest),
                    None => None,
                }
            } else {
                None
            },
            None => None,
        }
    }
}

/// What the image `bytes` holds, if it is the image of a store: the empty
/// image is that of a store without schema; any other must begin with the
/// header and go on with whole records, no two of them for the same path.
pub open spec fn parse_image(bytes: Seq<u8>) -> Option<Content> {
    if bytes.len() == 0 {
        Some(Content { ready: false, rows: Seq::empty() })
    } else if bytes.len() < 8 || bytes.subrange(0, 8) != header() {
        None
    } else {
        match parse_rows(bytes.skip(8)) {
            Some(rows) => if distinct_rows(rows) {
                Some(Content { ready: true, rows })
            } else {
                None
            },
            None => None,
        }
    }
}

/// Whether `store` holds what was read from an image: there must be a
/// content, with the store's schema state and the store's rows, and so with
/// the store's table.
pub open spec fn holds(store: Store, read: Option<Content>) -> bool {
    match read {
        Some(content) => store.is_ready() == content.ready && rows_for(store.rows()) == content.rows
            && store@ == rows_table(content.rows),
        None => false,
    }
}

/// What `store` holds, as the content of an image.
pub open spec fn content_of(store: Store) -> Content {
    Content { ready: store.is_ready(), rows: rows_for(store.rows()) }
}

/// The records `done` followed by those of `rest`, if there are any.
pub open spec fn followed_by(done: Seq<Row>, rest: Option<Seq<Row>>) -> Option<Seq<Row>> {
    match rest {
        Some(rows) => Some(done + rows),
        None => None,
    }
}

/// A record is read back from its bytes, whatever follows them.
pub proof fn lemma_row_round_trip(row: Row, rest: Seq<u8>)
    requires
        storable(row),
    ensures
        row_image(row).len() == 24 + encode_utf8(row.path).len(),
        parse_row(row_image(row) + rest) == Some((row, row_image(row).len() as int)),
        (row_image(row) + rest).skip(row_image(row).len() as int) == rest,
{
    lemma_auto_spec_u64_to_from_le_bytes();
    encode_utf8_valid_utf8(row.path);
    encode_utf8_decode_utf8(row.path);
    let count = spec_u64_to_le_bytes(row.visit_count);
    let last = spec_u64_to_le_bytes(row.last_visit_millis);
    let size = spec_u64_to_le_bytes(encode_utf8(row.path).len() as u64);
    let path = encode_utf8(row.path);
    let bytes = row_image(row) + rest;
    assert(bytes.subrange(0, 8) =~= count);
    assert(bytes.subrange(8, 16) =~= last);
    assert(bytes.subrange(16, 24) =~= size);
    assert(bytes.subrange(24, 24 + path.len() as int) =~= path);
    assert(bytes.skip(row_image(row).len() as int) =~= rest);
}

/// The bytes of records that follow each other are the bytes of the first
/// followed by the bytes of the others.
pub proof fn lemma_rows_image_push(rows: Seq<Row>, row: Row)
    ensures
        rows_image(rows.push(row)) == rows_image(rows) + row_image(row),
    decreases rows.len(),
{
    if rows.len() == 0 {
        assert(rows.push(row).drop_first() =~= Seq::<Row>::empty());
        assert(rows_image(rows.push(row).drop_first()) =~= Seq::<u8>::empty());
        assert(rows_image(rows.push(row)) =~= rows_image(rows) + row_image(row));
    } else {
        lemma_rows_image_push(rows.drop_first(), row);
        assert(rows.push(row).drop_first() =~= rows.drop_first().push(row));
        assert(rows_image(rows.push(row)) =~= rows_image(rows) + row_image(row));
    }
}

/// Records are read back from their bytes.
pub proof fn lemma_rows_round_trip(rows: Seq<Row>)
    requires
        forall|i: int| 0 <= i < rows.len() ==> storable(#[trigger] rows[i]),
    ensures
        parse_rows(rows_image(rows)) == Some(rows),
    decreases rows.len(),
{
    if rows.len() > 0 {
        let rest = rows.drop_first();
        assert forall|i: int| 0 <= i < rest.len() implies storable(#[trigger] rest[i]) by {
            assert(rest[i] == rows[i + 1]);
        }
        lemma_rows_round_trip(rest);
        lemma_row_round_trip(rows.first(), rows_image(rest));
        assert(seq![rows.first()] + rest =~= rows);
    }
}

/// Every content that a store can have is read back from its image.
pub proof fn lemma_image_round_trip(content: Content)
    requires
        forall|i: int| 0 <= i < content.rows.len() ==> storable(#[trigger] content.rows[i]),
        distinct_rows(content.rows),
        !content.ready ==> content.rows.len() == 0,
    ensures
        parse_image(image_of(content)) == Some(content),
{
    if content.ready {
        let bytes = image_of(content);
        lemma_rows_round_trip(content.rows);
        assert(bytes.subrange(0, 8) =~= header());
        assert(bytes.skip(8) =~= rows_image(content.rows));
    } else {
        assert(content.rows =~= Seq::<Row>::empty());
    }
}

/// Entries without duplicates stand for the same table as their records.
pub proof fn lemma_rows_table(entries: Seq<PathEntry>)
    requires
        distinct_paths(entries),
    ensures
        rows_table(rows_for(entries)) == table_of(entries),
        distinct_rows(rows_for(entries)),
{
    let rows = rows_for(entries);
    lemma_table_rows(entries);
    assert forall|p: Seq<char>| rows_table(rows).dom().contains(p) <==> table_of(entries).dom().contains(
        p,
    ) by {
        if rows_table(rows).dom().contains(p) {
            let i = choose|i: int| 0 <= i < rows.len() && (#[trigger] rows[i]).path == p;
            assert(entries[i].path@ == p);
        }
        if has_row(entries, p) {
            let i = row_of(entries, p);
            assert(rows[i].path == p);
        }
    }
    assert forall|p: Seq<char>| rows_table(rows).dom().contains(p) implies rows_table(rows)[p]
        == table_of(entries)[p] by {
        let i = choose|i: int| 0 <= i < rows.len() && (#[trigger] rows[i]).path == p;
        assert(entries[i].path@ == p);
    }
    assert(rows_table(rows) =~= table_of(entries));
}

/// Calls `std::str::from_utf8` and copies the text it gives. The text is
/// there exactly if the bytes are valid UTF-8, and is then the text that the
/// bytes encode.
#[verifier::external_body]
fn text_from_utf8(bytes: &[u8]) -> (text: Option<String>)
    ensures
        text is Some <==> valid_utf8(bytes@),
        text matches Some(s) ==> s@ == decode_utf8(bytes@),
{
    match std::str::from_utf8(bytes) {
        Ok(text) => Some(text.to_owned()),
        Err(_) => None,
    }
}

/// Reads the record that starts at position `at` of `image`. With the record
/// comes the position just behind it.
fn read_row(image: &[u8], at: usize) -> (read: Option<(PathEntry, usize)>)
    requires
        at <= image@.len(),
    ensures
        match read {
            Some((entry, next)) => at < next <= image@.len() && parse_row(image@.skip(at as int))
                == Some((row_for(entry), next - at)),
            None => parse_row(image@.skip(at as int)) is None,
        },
{
    let ghost bytes = image@.skip(at as int);
    let left: usize = image.len() - at;
    if left < 24 {
        return None;
    }
    let visit_count: u64 = u64_from_le_bytes(slice_subrange(image, at, at + 8));
    let last_visit_millis: u64 = u64_from_le_bytes(slice_subrange(image, at + 8, at + 16));
    let size: u64 = u64_from_le_bytes(slice_subrange(image, at + 16, at + 24));
    proof {
        assert(bytes.subrange(0, 8) =~= image@.subrange(at as int, at + 8));
        assert(bytes.subrange(8, 16) =~= image@.subrange(at + 8, at + 16));
        assert(bytes.subrange(16, 24) =~= image@.subrange(at + 16, at + 24));
    }
    if size > (left - 24) as u64 {
        return None;
    }
    let length: usize = size as usize;
    proof {
        assert(bytes.subrange(24, 24 + size) =~= image@.subrange(at + 24, at + 24 + length));
    }
    if visit_count == 0 {
        return None;
    }
    match text_from_utf8(slice_subrange(image, at + 24, at + 24 + length)) {
        Some(path) => {
            if path.as_str().is_empty() {
                None
            } else {
                Some((PathEntry { path, visit_count, last_visit_millis }, at + 24 + length))
            }
        },
        None => None,
    }
}

/// Whether one of `entries` is for `path`.
fn holds_path(entries: &Vec<PathEntry>, path: &str) -> (held: bool)
    ensures
        held == has_row(entries@, path@),
{
    let mut i: usize = 0;
    while i < entries.len()
        invariant
            0 <= i <= entries@.len(),
            forall|j: int| 0 <= j < i ==> (#[trigger] entries@[j]).path@ != path@,
        decreases entries@.len() - i,
    {
        if same_path(entries[i].path.as_str(), path) {
            return true;
        }
        i += 1;
    }
    false
}

/// Whether `image` begins with the header.
fn starts_with_header(image: &[u8]) -> (starts: bool)
    ensures
        starts == (image@.len() >= 8 && image@.subrange(0, 8) == header()),
{
    if image.len() < 8 {
        return false;
    }
    let starts = image[0] == 0x46 && image[1] == 0x52 && image[2] == 0x43 && image[3] == 0x59
        && image[4] == 0x00 && image[5] == 0x00 && image[6] == 0x00 && image[7] == 0x01;
    proof {
        let head = image@.subrange(0, 8);
        if starts {
            assert(head =~= header());
        } else {
            assert(head[0] == image@[0] && head[1] == image@[1] && head[2] == image@[2] && head[3]
                == image@[3] && head[4] == image@[4] && head[5] == image@[5] && head[6] == image@[6]
                && head[7] == image@[7]);
        }
    }
    starts
}

proof fn lemma_duplicate_spoils(done: Seq<Row>, row: Row, rest: Seq<Row>, j: int)
    requires
        0 <= j < done.len(),
        done[j].path == row.path,
    ensures
        !distinct_rows(done + (seq![row] + rest)),
{
    let all = done + (seq![row] + rest);
    assert(all[j] == done[j]);
    assert(all[done.len() as int] == row);
}

/// Opens the store that `image` holds. The empty image gives a store without
/// schema; the image of a store with schema gives that store, with its rows.
/// Any other image is damaged, and the operation fails with `StorageError`.
pub fn open_store(image: &[u8]) -> (result: Result<Store, FrecencyError>)
    ensures
        match result {
            Ok(store) => store.wf() && holds(store, parse_image(image@)),
            Err(e) => e == FrecencyError::StorageError && parse_image(image@) is None,
        },
{
    if image.len() == 0 {
        let store = Store::new();
        proof {
            store.lemma_wf_table();
            assert(rows_table(Seq::<Row>::empty()) =~= Map::<Seq<char>, Stats>::empty());
            assert(rows_for(store.rows()) =~= Seq::<Row>::empty());
        }
        return Ok(store);
    }
    if !starts_with_header(image) {
        return Err(FrecencyError::StorageError);
    }
    let mut entries: Vec<PathEntry> = Vec::new();
    let mut at: usize = 8;
    proof {
        assert(rows_for(entries@) + parse_rows(image@.skip(8))->Some_0 =~= parse_rows(
            image@.skip(8),
        )->Some_0);
    }
    while at < image.len()
        invariant
            8 <= at <= image@.len(),
            valid_rows(entries@),
            parse_rows(image@.skip(8)) == followed_by(
                rows_for(entries@),
                parse_rows(image@.skip(at as int)),
            ),
        decreases image@.len() - at,
    {
        let ghost done = rows_for(entries@);
        let ghost bytes = image@.skip(at as int);
        match read_row(image, at) {
            Some((entry, next)) => {
                proof {
                    assert(bytes.skip(next - at) =~= image@.skip(next as int));
                }
                if holds_path(&entries, entry.path.as_str()) {
                    proof {
                        if parse_rows(image@.skip(next as int)) is Some {
                            let rest = parse_rows(image@.skip(next as int))->Some_0;
                            let j = row_of(entries@, entry.path@);
                            assert(done[j].path == entry.path@);
                            lemma_duplicate_spoils(done, row_for(entry), rest, j);
                        }
                    }
                    return Err(FrecencyError::StorageError);
                }
                entries.push(entry);
                proof {
                    let grown = entries@;
                    assert(rows_for(grown) =~= done.push(row_for(entry)));
                    if parse_rows(image@.skip(next as int)) is Some {
                        let rest = parse_rows(image@.skip(next as int))->Some_0;
                        assert(done + (seq![row_for(entry)] + rest) =~= done.push(row_for(entry))
                            + rest);
                    }
                    assert forall|a: int, b: int| 0 <= a < b < grown.len() implies grown[a].path@
                        != grown[b].path@ by {
                        if b == grown.len() - 1 {
                            assert(grown[a] == entries@[a]);
                        }
                    }
                }
                at = next;
            },
            None => {
                return Err(FrecencyError::StorageError);
            },
        }
    }
    proof {
        assert(image@.skip(at as int).len() == 0);
        assert(rows_for(entries@) + Seq::<Row>::empty() =~= rows_for(entries@));
        lemma_rows_table(entries@);
    }
    Ok(Store::from_entries(true, entries))
}

/// What was found at the location of a store.
#[derive(Debug)]
pub enum Backing {
    /// Nothing is there yet, and the location can be written.
    Missing,
    /// The location can be neither opened nor created.
    Unavailable,
    /// The bytes that are kept there.
    Image(Vec<u8>),
}

/// Opens the store at a location, given what was found there. Where nothing
/// is there yet the store starts without schema. Where bytes are there the
/// store is the one they hold, as `open_store` reads them. A location that
/// cannot be opened or created fails with `StorageUnavailable`.
pub fn open(backing: &Backing) -> (result: Result<Store, FrecencyError>)
    ensures
        match (backing, result) {
            (Backing::Missing, Ok(store)) => store.wf() && !store.is_ready() && store@ == Map::<
                Seq<char>,
                Stats,
            >::empty(),
            (Backing::Image(bytes), Ok(store)) => store.wf() && holds(store, parse_image(bytes@)),
            (Backing::Image(bytes), Err(e)) => e == FrecencyError::StorageError && parse_image(
                bytes@,
            ) is None,
            (Backing::Unavailable, Err(e)) => e == FrecencyError::StorageUnavailable,
            _ => false,
        },
{
    match backing {
        Backing::Missing => Ok(Store::new()),
        Backing::Unavailable => Err(FrecencyError::StorageUnavailable),
        Backing::Image(bytes) => open_store(bytes.as_slice()),
    }
}

/// The image under which `store` is kept: empty for a store without schema,
/// else the header and the records of the rows. Opening the image gives a
/// store with the same schema state, the same rows and the same table.
pub fn store_image(store: &Store) -> (image: Vec<u8>)
    requires
        store.wf(),
    ensures
        image@ == image_of(content_of(*store)),
        holds(*store, parse_image(image@)),
{
    if !store.ready() {
        let image: Vec<u8> = Vec::new();
        proof {
            store.lemma_wf_table();
            assert(rows_table(Seq::<Row>::empty()) =~= Map::<Seq<char>, Stats>::empty());
            assert(rows_for(store.rows()) =~= Seq::<Row>::empty());
        }
        return image;
    }
    let entries: Vec<PathEntry> = store.entries();
    let mut image: Vec<u8> = Vec::new();
    image.push(0x46);
    image.push(0x52);
    image.push(0x43);
    image.push(0x59);
    image.push(0x00);
    image.push(0x00);
    image.push(0x00);
    image.push(0x01);
    proof {
        assert(image@ =~= header() + rows_image(rows_for(entries@).take(0)));
    }
    let mut i: usize = 0;
    while i < entries.len()
        invariant
            0 <= i <= entries@.len(),
            image@ == header() + rows_image(rows_for(entries@).take(i as int)),
            forall|k: int|
                0 <= k < i ==> encode_utf8((#[trigger] entries@[k]).path@).len() <= u64::MAX,
        decreases entries@.len() - i,
    {
        let entry = &entries[i];
        let mut path_bytes: Vec<u8> = entry.path.as_str().as_bytes_vec();
        let mut count_bytes: Vec<u8> = u64_to_le_bytes(entry.visit_count);
        let mut last_bytes: Vec<u8> = u64_to_le_bytes(entry.last_visit_millis);
        let mut size_bytes: Vec<u8> = u64_to_le_bytes(path_bytes.len() as u64);
        let ghost before = image@;
        proof {
            let rows = rows_for(entries@);
            lemma_rows_image_push(rows.take(i as int), rows[i as int]);
            assert(rows.take(i as int).push(rows[i as int]) =~= rows.take(i + 1));
        }
        image.append(&mut count_bytes);
        image.append(&mut last_bytes);
        image.append(&mut size_bytes);
        image.append(&mut path_bytes);
        proof {
            let row = rows_for(entries@)[i as int];
            assert(image@ =~= before + row_image(row));
            assert(before + row_image(row) =~= header() + (rows_image(
                rows_for(entries@).take(i as int),
            ) + row_image(row)));
        }
        i += 1;
    }
    proof {
        let rows = rows_for(entries@);
        assert(rows.take(entries@.len() as int) =~= rows);
        assert forall|k: int| 0 <= k < rows.len() implies storable(#[trigger] rows[k]) by {
            assert(rows[k] == row_for(entries@[k]));
        }
        lemma_rows_table(entries@);
        lemma_image_round_trip(Content { ready: true, rows });
    }
    image
}

} // verus!
