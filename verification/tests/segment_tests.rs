use seglog::segment::{MaxBytes, SegmentMeta};

#[test]
fn it_creates_segment_meta() {
    let segment = SegmentMeta::new(0, MaxBytes(64, 64));
    assert_eq!(segment.current_position(), 0, "position");
    assert_eq!(segment.base_offset, 0, "base_offset");
    assert_eq!(segment.max_bytes, MaxBytes(64, 64), "max_bytes");
    assert_eq!(segment.next_offset, 0, "next_offset");
}

#[test]
fn it_can_write_to_log() {
    let mut segment = SegmentMeta::new(0, MaxBytes(64, 64));
    let n = segment.write("YELLOW SUBMARINE".as_bytes()).unwrap();
    assert_eq!(n, 16, "write returns 16");
    assert_eq!("YELLOW SUBMARINE".as_bytes(), segment.log, "data writes");
}

#[test]
fn it_loads_existing_segment_meta() {
    let segment =
        SegmentMeta::load("00000000000000000000.log", vec![], vec![], MaxBytes(64, 64)).unwrap();
    assert_eq!(segment.current_position(), 0, "position");
    assert_eq!(segment.base_offset, 0, "base_offset");
    assert_eq!(segment.max_bytes, MaxBytes(64, 64), "max_bytes");
    assert_eq!(segment.next_offset, 0, "next_offset of a never-written segment");
}

#[test]
fn it_is_full_when_full() {
    let mut segment = SegmentMeta::new(0, MaxBytes(16, 64));
    let _ = segment.write("YELLOW ".as_bytes()).unwrap();
    assert!(!segment.is_full(), "not full yet");
    let _ = segment.write("SUBMARINE".as_bytes()).unwrap();
    assert!(segment.is_full(), "is full");
    let _ = segment.write("?".as_bytes()).unwrap();
    assert!(segment.is_full(), "still full");

    assert_eq!(segment.next_offset, 3, "increment 3 offsets");
    assert_eq!(segment.current_position(), 17, "position");
}

#[test]
fn it_writes() {
    let mut segment = SegmentMeta::new(0, MaxBytes(64, 64));
    let n = segment.write("YELLOW SUBMARINE".as_bytes()).unwrap();
    assert_eq!(n, 16, "16 bytes");
    assert_eq!("YELLOW SUBMARINE".as_bytes(), segment.log, "data write");

    assert_eq!(segment.next_offset, 1, "increment next offset");
    assert_eq!(segment.current_position(), 16, "position");
    assert_eq!(segment.base_offset, 0, "base_offset");
    assert_eq!(segment.max_bytes, MaxBytes(64, 64), "max_bytes");
}

#[test]
fn default_new_segment() {
    let segment = SegmentMeta::new(0, MaxBytes(64, 64));

    assert_eq!(segment.index.len(), 64, "file size");
    assert_eq!(segment.current_position(), 0, "position");
    assert_eq!(segment.base_offset, 0, "base_offset");
    assert_eq!(segment.max_bytes, MaxBytes(64, 64), "max_bytes");
    assert_eq!(segment.next_offset, 0, "next_offset");
}

#[test]
fn load_skips_names_without_log_extension() {
    assert!(
        SegmentMeta::load("00000000000000000000.index", vec![], vec![], MaxBytes(64, 64)).is_none()
    );
    assert!(SegmentMeta::load("notes.txt", vec![], vec![], MaxBytes(64, 64)).is_none());
}

#[test]
fn load_skips_non_decimal_stems() {
    assert!(SegmentMeta::load("segment-a.log", vec![], vec![], MaxBytes(64, 64)).is_none());
    assert!(SegmentMeta::load(".log", vec![], vec![], MaxBytes(64, 64)).is_none());
}

#[test]
fn load_recovers_next_offset_from_index() {
    let index_bytes = vec![
        0, 0, 0, 0, 0, 0, 0, 0, //
        0, 0, 0, 1, 0, 0, 0, 14, //
    ];
    let segment = SegmentMeta::load(
        "00000000000000000088.log",
        vec![0u8; 28],
        index_bytes,
        MaxBytes(64, 16),
    )
    .unwrap();
    assert_eq!(segment.base_offset, 88);
    assert_eq!(segment.next_offset, 90);
    assert_eq!(segment.current_position(), 28);
}
