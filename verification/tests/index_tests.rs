use seglog::entry::Entry;
use seglog::index::Index;
use seglog::LogError;

#[test]
fn it_defaults_new() {
    let index = Index::new(0, 64).unwrap();

    assert_eq!(index.len(), 64, "file size");
    assert_eq!(index.max_bytes, 64, "bytes");
    assert_eq!(index.base_offset, 0, "base_offset");
}

#[test]
fn it_writes_entry_offset_one() {
    let mut index = Index::new(0, 32).unwrap();
    let entry = Entry { offset: 1, position: 16 };
    index.write_entry(entry).unwrap();

    assert_eq!(
        index.data,
        vec![
            0, 0, 0, 0, 0, 0, 0, 0, //
            0, 0, 0, 1, 0, 0, 0, 16, //
            0, 0, 0, 0, 0, 0, 0, 0, //
            0, 0, 0, 0, 0, 0, 0, 0,
        ]
    );
}

#[test]
fn it_writes_entry_at_base_offset() {
    let mut index = Index::new(2, 32).unwrap();

    index.write_entry(Entry { offset: 2, position: 16 }).unwrap();
    index.write_entry(Entry { offset: 3, position: 54 }).unwrap();
    index.write_entry(Entry { offset: 4, position: 62 }).unwrap();

    assert_eq!(
        index.data,
        vec![
            0, 0, 0, 0, 0, 0, 0, 16, //
            0, 0, 0, 1, 0, 0, 0, 54, //
            0, 0, 0, 2, 0, 0, 0, 62, //
            0, 0, 0, 0, 0, 0, 0, 0,
        ]
    );
}

#[test]
fn it_finds_last_entry() {
    let mut index = Index::new(2, 64).unwrap();

    index.write_entry(Entry { offset: 2, position: 16 }).unwrap();
    index.write_entry(Entry { offset: 3, position: 54 }).unwrap();
    index.write_entry(Entry { offset: 4, position: 62 }).unwrap();
    index.write_entry(Entry { offset: 5, position: 88 }).unwrap();

    let entry = index.find_latest_entry();
    assert_eq!(entry, Entry { offset: 5, position: 88 });
}

#[test]
#[should_panic]
fn it_writes_entry_overflow() {
    let mut index = Index::new(0, 16).unwrap();
    index.write_entry(Entry { offset: 1, position: 16 }).unwrap();
    index.write_entry(Entry { offset: 2, position: 54 }).unwrap();
    index.write_entry(Entry { offset: 3, position: 62 }).unwrap();
}

#[test]
fn it_reads_entry() {
    let bytes = vec![
        0, 0, 0, 0, 0, 0, 0, 0, //
        0, 0, 0, 1, 0, 0, 0, 42, //
        0, 0, 0, 2, 0, 0, 0, 62, //
        0, 0, 0, 0, 0, 0, 0, 0,
    ];
    let index = Index::open(bytes, 0, 32).unwrap();

    let expected = Entry { offset: 0, position: 0 };
    let entry = index.read_entry(0).unwrap();
    assert_eq!(entry, expected, "first offset");

    let expected = Entry { offset: 1, position: 42 };
    let entry = index.read_entry(8).unwrap();
    assert_eq!(entry, expected, "second offset");
}

#[test]
fn index_write_then_read_back() {
    let mut index = Index::new(10, 64).unwrap();
    let entry = Entry { offset: 13, position: 345 };
    index.write_entry(entry).unwrap();
    let back = index.read_log_entry(3).unwrap();
    assert_eq!(back, entry);
}

#[test]
fn index_size_must_be_slot_aligned() {
    let err = Index::new(0, 12).unwrap_err();
    assert_eq!(err, LogError::IndexSizeUnaligned);
}

#[test]
fn index_size_must_hold_two_slots() {
    let err = Index::new(0, 8).unwrap_err();
    assert_eq!(err, LogError::IndexSizeTooSmall);
}

#[test]
fn index_write_beyond_capacity_fails() {
    let mut index = Index::new(0, 16).unwrap();
    let err = index.write_entry(Entry { offset: 2, position: 5 }).unwrap_err();
    assert_eq!(err, LogError::SlotOutOfRange);
}

#[test]
fn index_read_beyond_capacity_fails() {
    let index = Index::new(0, 16).unwrap();
    let err = index.read_log_entry(2).unwrap_err();
    assert_eq!(err, LogError::SlotOutOfRange);
}

#[test]
fn index_is_empty_until_past_first_slots() {
    let mut index = Index::new(0, 32).unwrap();
    assert!(index.is_empty());
    index.write_entry(Entry { offset: 0, position: 0 }).unwrap();
    assert!(index.is_empty(), "a zero entry at slot 0 is indistinguishable");
    index.write_entry(Entry { offset: 1, position: 28 }).unwrap();
    assert!(!index.is_empty());
}
