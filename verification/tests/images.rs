use frecency::image::{open, open_store, store_image, Backing};
use frecency::store::{add_visit, ensure_schema, fetch_scores_at, remove_paths, FrecencyError, Store};

const HEADER: [u8; 8] = [0x46, 0x52, 0x43, 0x59, 0, 0, 0, 1];

fn record(visit_count: u64, last_visit_millis: u64, path: &[u8]) -> Vec<u8> {
    let mut bytes = Vec::new();
    bytes.extend_from_slice(&visit_count.to_le_bytes());
    bytes.extend_from_slice(&last_visit_millis.to_le_bytes());
    bytes.extend_from_slice(&(path.len() as u64).to_le_bytes());
    bytes.extend_from_slice(path);
    bytes
}

fn image_with(records: &[Vec<u8>]) -> Vec<u8> {
    let mut bytes = HEADER.to_vec();
    for r in records {
        bytes.extend_from_slice(r);
    }
    bytes
}

fn failed(result: Result<Store, FrecencyError>) -> FrecencyError {
    match result {
        Ok(_) => panic!("the image should not open"),
        Err(e) => e,
    }
}

#[test]
fn a_store_without_schema_has_the_empty_image() {
    assert_eq!(store_image(&Store::new()), Vec::<u8>::new());
    let store = open_store(&[]).unwrap();
    assert!(!store.ready());
    assert_eq!(store.len(), 0);
}

#[test]
fn an_empty_store_with_schema_is_just_the_header() {
    let mut store = Store::new();
    ensure_schema(&mut store);
    assert_eq!(store_image(&store), HEADER.to_vec());
    let opened = open_store(&HEADER).unwrap();
    assert!(opened.ready());
    assert_eq!(opened.len(), 0);
}

#[test]
fn a_row_is_laid_out_low_byte_first() {
    let mut store = Store::new();
    add_visit(&mut store, "/é", 0x0102).unwrap();
    add_visit(&mut store, "/é", 0x0304).unwrap();
    let expected: Vec<u8> = vec![
        0x46, 0x52, 0x43, 0x59, 0, 0, 0, 1, // header
        2, 0, 0, 0, 0, 0, 0, 0, // two visits
        0x04, 0x03, 0, 0, 0, 0, 0, 0, // the last at 0x0304
        3, 0, 0, 0, 0, 0, 0, 0, // three bytes of path
        0x2f, 0xc3, 0xa9,
    ];
    assert_eq!(store_image(&store), expected);
}

#[test]
fn an_image_opens_to_the_store_it_was_made_from() {
    let mut store = Store::new();
    add_visit(&mut store, "/a", 1000).unwrap();
    add_visit(&mut store, "/b", 1000).unwrap();
    add_visit(&mut store, "/b", 3000).unwrap();
    add_visit(&mut store, "/日本/語", u64::MAX).unwrap();
    remove_paths(&mut store, &["/a"]).unwrap();
    add_visit(&mut store, "/a", 5).unwrap();

    let image = store_image(&store);
    let opened = open_store(&image).unwrap();
    assert!(opened.ready());
    assert_eq!(opened.len(), 3);
    for path in ["/a", "/b", "/日本/語"] {
        let was = store.lookup(path).unwrap();
        let is = opened.lookup(path).unwrap();
        assert_eq!((is.visit_count, is.last_visit_millis), (was.visit_count, was.last_visit_millis));
    }
    assert_eq!(
        fetch_scores_at(&opened, None, 4000).unwrap(),
        fetch_scores_at(&store, None, 4000).unwrap()
    );
    assert_eq!(store_image(&opened), image);
}

#[test]
fn records_are_read_in_full() {
    let image = image_with(&[record(3, 3000, b"/b"), record(1, 1000, b"/a")]);
    let store = open_store(&image).unwrap();
    let b = store.lookup("/b").unwrap();
    assert_eq!((b.visit_count, b.last_visit_millis), (3, 3000));
    let a = store.lookup("/a").unwrap();
    assert_eq!((a.visit_count, a.last_visit_millis), (1, 1000));
    assert_eq!(store.len(), 2);
}

#[test]
fn a_wrong_header_is_damage() {
    assert_eq!(failed(open_store(&[0x46])), FrecencyError::StorageError);
    assert_eq!(failed(open_store(&[0x46, 0x52, 0x43, 0x59, 0, 0, 0, 2])), FrecencyError::StorageError);
    assert_eq!(failed(open_store(b"not a store image")), FrecencyError::StorageError);
}

#[test]
fn a_cut_record_is_damage() {
    let whole = image_with(&[record(1, 1000, b"/a")]);
    for len in 9..whole.len() {
        assert_eq!(failed(open_store(&whole[..len])), FrecencyError::StorageError);
    }
    assert!(open_store(&whole).is_ok());
}

#[test]
fn a_length_beyond_the_image_is_damage() {
    let mut image = image_with(&[record(1, 1000, b"/a")]);
    image[24] = 3;
    assert_eq!(failed(open_store(&image)), FrecencyError::StorageError);
    for b in &mut image[24..32] {
        *b = 0xff;
    }
    assert_eq!(failed(open_store(&image)), FrecencyError::StorageError);
}

#[test]
fn a_row_without_visits_is_damage() {
    let image = image_with(&[record(0, 1000, b"/a")]);
    assert_eq!(failed(open_store(&image)), FrecencyError::StorageError);
}

#[test]
fn a_row_for_the_empty_path_is_damage() {
    let image = image_with(&[record(1, 1000, b"")]);
    assert_eq!(failed(open_store(&image)), FrecencyError::StorageError);
}

#[test]
fn a_path_that_is_not_utf8_is_damage() {
    for path in [&[0xffu8][..], &[0x2f, 0xc3][..], &[0xed, 0xa0, 0x80][..], &[0xc0, 0xaf][..]] {
        let image = image_with(&[record(1, 1000, path)]);
        assert_eq!(failed(open_store(&image)), FrecencyError::StorageError);
    }
}

#[test]
fn two_rows_for_one_path_are_damage() {
    let image = image_with(&[record(1, 1000, b"/a"), record(2, 500, b"/b"), record(4, 2000, b"/a")]);
    assert_eq!(failed(open_store(&image)), FrecencyError::StorageError);
}

#[test]
fn a_full_counter_refuses_the_next_visit() {
    let image = image_with(&[record(u64::MAX, 1000, b"/a"), record(u64::MAX - 1, 1000, b"/b")]);
    let mut store = open_store(&image).unwrap();
    assert_eq!(add_visit(&mut store, "/a", 2000), Err(FrecencyError::StorageError));
    let a = store.lookup("/a").unwrap();
    assert_eq!((a.visit_count, a.last_visit_millis), (u64::MAX, 1000));
    assert_eq!(add_visit(&mut store, "/b", 2000), Ok(()));
    assert_eq!(store.lookup("/b").unwrap().visit_count, u64::MAX);
    assert_eq!(add_visit(&mut store, "/b", 3000), Err(FrecencyError::StorageError));
    assert_eq!(
        fetch_scores_at(&store, Some(1), 2000).unwrap(),
        vec![("/b".to_string(), (u64::MAX as u128) * 8)]
    );
}

#[test]
fn opening_reads_what_was_found() {
    let missing = open(&Backing::Missing).unwrap();
    assert!(!missing.ready());
    assert_eq!(failed(open(&Backing::Unavailable)), FrecencyError::StorageUnavailable);
    let found = open(&Backing::Image(image_with(&[record(2, 7, b"/a")]))).unwrap();
    assert_eq!(found.lookup("/a").unwrap().visit_count, 2);
    assert_eq!(failed(open(&Backing::Image(vec![1, 2, 3]))), FrecencyError::StorageError);
    let empty = open(&Backing::Image(Vec::new())).unwrap();
    assert!(!empty.ready());
}

#[test]
fn opening_twice_gives_the_same_store() {
    let mut store = Store::new();
    add_visit(&mut store, "/a", 1000).unwrap();
    let once = open_store(&store_image(&store)).unwrap();
    let twice = open_store(&store_image(&once)).unwrap();
    assert_eq!(store_image(&twice), store_image(&store));
    assert_eq!(twice.lookup("/a").unwrap().visit_count, 1);
}

#[test]
fn entries_hold_every_row() {
    let mut store = Store::new();
    add_visit(&mut store, "/a", 1000).unwrap();
    add_visit(&mut store, "/b", 2000).unwrap();
    add_visit(&mut store, "/a", 3000).unwrap();
    let mut rows: Vec<(String, u64, u64)> = store
        .entries()
        .into_iter()
        .map(|e| (e.path, e.visit_count, e.last_visit_millis))
        .collect();
    rows.sort();
    assert_eq!(rows, vec![("/a".to_string(), 2, 3000), ("/b".to_string(), 1, 2000)]);
}
