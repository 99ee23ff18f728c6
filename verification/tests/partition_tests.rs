use seglog::partition::{DirFile, Partition};
use seglog::segment::MaxBytes;

fn file(name: &str, bytes: Vec<u8>) -> DirFile {
    DirFile { name: String::from(name), bytes }
}

#[test]
fn it_creates_new_partition() {
    let partition = Partition::create(String::from("topic"), MaxBytes(64, 64));

    assert_eq!(partition.active_segment.newest_offset(), 0, "Next offset");
    assert_eq!(partition.name, "topic", "The Partition name");
    assert_eq!(partition.segments.len(), 0, "no inactive segments");
    assert_eq!(partition.max_bytes, MaxBytes(64, 64), "no default segment bytes");
}

#[test]
fn it_scans_partition_dir() {
    let files = vec![
        file("00000000000000000000.index", vec![]),
        file("00000000000000000000.log", vec![]),
        file("00000000000000000088.index", vec![]),
        file("00000000000000000088.log", vec![]),
    ];
    let mut segments = Partition::scan(&files, MaxBytes(64, 64));

    let top_seg = segments.pop();
    assert!(top_seg.is_some(), "is some");
    let segment = top_seg.unwrap();
    assert_eq!(segment.base_offset, 88, "base_offset of latest segment is 88");
    assert_eq!(segment.newest_offset(), 88, "next offset is 88 too (empty index/segment)");
}

#[test]
fn it_loads_existing_empty_segments() {
    let files = vec![
        file("00000000000000000000.index", vec![]),
        file("00000000000000000000.log", vec![]),
        file("00000000000000000088.index", vec![]),
        file("00000000000000000088.log", vec![]),
    ];
    let partition = Partition::load(String::from("topic"), &files, MaxBytes(64, 64));

    assert_eq!(partition.active_segment.newest_offset(), 88, "next offset is 88");
    assert_eq!(partition.segments.len(), 1, "One 'docketed' existing segment meta");
}

#[test]
fn partition_it_loads_existing_segments() {
    let log_88 = vec![
        0, 0, 0, 0, 0, 0, 0, 88, 0, 0, 0, 0, 88, 88, //
        0, 0, 0, 0, 0, 0, 0, 89, 0, 0, 0, 14, 88, 88,
    ];
    let idx_88 = vec![0, 0, 0, 0, 0, 0, 0, 0, 0, 0, 0, 1, 0, 0, 0, 14];
    let files = vec![
        file("00000000000000000000.index", vec![]),
        file("00000000000000000000.log", vec![]),
        file("00000000000000000088.log", log_88),
        file("00000000000000000088.index", idx_88),
    ];
    let partition = Partition::load(String::from("topic"), &files, MaxBytes(64, 64));

    assert_eq!(partition.active_segment.newest_offset(), 90, "next offset is 90!");
    assert_eq!(partition.segments.len(), 1, "One 'docketed' existing segment meta");
}

#[test]
fn it_appends_to_partition() {
    let mut partition = Partition::create(String::from("topic"), MaxBytes(64, 32));
    let first_offset = partition.append("YELLOW SUBMARINE".as_bytes()).unwrap();
    let second_offset = partition.append("NIGHTMARE STEAM".as_bytes()).unwrap();

    let mut expected_segment: Vec<u8> = vec![0, 0, 0, 0, 0, 0, 0, 0, 0, 0, 0, 0];
    expected_segment.extend_from_slice("YELLOW SUBMARINE".as_bytes());
    expected_segment.extend_from_slice(&[0, 0, 0, 0, 0, 0, 0, 1, 0, 0, 0, 0x1c]);
    expected_segment.extend_from_slice("NIGHTMARE STEAM".as_bytes());
    let expected_index: Vec<u8> = vec![
        0, 0, 0, 0, 0, 0, 0, 0, //
        0, 0, 0, 1, 0, 0, 0, 0x1c, //
        0, 0, 0, 0, 0, 0, 0, 0, //
        0, 0, 0, 0, 0, 0, 0, 0,
    ];
    assert_eq!(first_offset, 1, "next offset is 1!");
    assert_eq!(second_offset, 2, "second offset is 2!");
    assert_eq!(partition.active_segment.log, expected_segment, "segment write");
    assert_eq!(partition.active_segment.index.data, expected_index, "index write");
}

#[test]
fn it_splits_when_full() {
    let mut partition = Partition::create(String::from("topic"), MaxBytes(28, 16));
    assert_eq!(partition.active_segment.size(), 0);
    let first_offset = partition.append("YELLOW SUBMARINE".as_bytes()).unwrap();
    assert_eq!(partition.active_segment.size(), 28);
    let second_offset = partition.append("XX".as_bytes()).unwrap();
    assert_eq!(partition.active_segment.size(), 14);
    let third_offset = partition.append("XX".as_bytes()).unwrap();
    assert_eq!(partition.active_segment.size(), 28);

    let mut expected_first_segment: Vec<u8> = vec![0, 0, 0, 0, 0, 0, 0, 0, 0, 0, 0, 0];
    expected_first_segment.extend_from_slice("YELLOW SUBMARINE".as_bytes());
    let expected_first_index: Vec<u8> = vec![0, 0, 0, 0, 0, 0, 0, 0, 0, 0, 0, 0, 0, 0, 0, 0];
    let expected_second_segment: Vec<u8> = vec![
        0, 0, 0, 0, 0, 0, 0, 1, 0, 0, 0, 0, 88, 88, //
        0, 0, 0, 0, 0, 0, 0, 2, 0, 0, 0, 14, 88, 88,
    ];
    let expected_second_index: Vec<u8> = vec![0, 0, 0, 0, 0, 0, 0, 0, 0, 0, 0, 1, 0, 0, 0, 14];

    assert_eq!(first_offset, 1, "next offset is 1!");
    assert_eq!(second_offset, 2, "second (next) offset is 2!");
    assert_eq!(third_offset, 3, "third (next) offset is 3!");
    assert_eq!(partition.active_segment.newest_offset(), 3);
    assert_eq!(partition.active_segment.size(), 28);
    assert_eq!(partition.segments.len(), 1);
    assert_eq!(partition.segments[0].log, expected_first_segment, "first segment write");
    assert_eq!(partition.segments[0].index.data, expected_first_index, "first index write");
    assert_eq!(partition.active_segment.log, expected_second_segment, "second segment write");
    assert_eq!(partition.active_segment.index.data, expected_second_index, "second index write");
}

#[test]
fn rotation_chains_base_offsets() {
    let mut partition = Partition::create(String::from("topic"), MaxBytes(28, 16));
    partition.append("YELLOW SUBMARINE".as_bytes()).unwrap();
    partition.append("XX".as_bytes()).unwrap();
    assert_eq!(partition.segments[0].base_offset, 0);
    assert_eq!(partition.segments[0].newest_offset(), 1);
    assert_eq!(partition.active_segment.base_offset, 1);
}

#[test]
fn load_and_append_continues_the_log() {
    let log_0 = vec![
        0, 0, 0, 0, 0, 0, 0, 0, 0, 0, 0, 0, 88, 88, //
        0, 0, 0, 0, 0, 0, 0, 1, 0, 0, 0, 14, 88, 88,
    ];
    let idx_0 = vec![
        0, 0, 0, 0, 0, 0, 0, 0, //
        0, 0, 0, 1, 0, 0, 0, 14, //
        0, 0, 0, 0, 0, 0, 0, 0, //
        0, 0, 0, 0, 0, 0, 0, 0,
    ];
    let files = vec![
        file("00000000000000000000.log", log_0),
        file("00000000000000000000.index", idx_0),
    ];
    let mut partition = Partition::load(String::from("topic"), &files, MaxBytes(64, 32));
    assert_eq!(partition.active_segment.newest_offset(), 2);

    let next = partition.append("XX".as_bytes()).unwrap();
    assert_eq!(next, 3);
    assert_eq!(partition.active_segment.size(), 42, "the frame lands at position 28");
    let expected_index: Vec<u8> = vec![0, 0, 0, 0, 0, 0, 0, 0, 0, 0, 0, 1, 0, 0, 0, 14];
    assert_eq!(&partition.active_segment.index.data[..16], &expected_index[..]);
    assert_eq!(&partition.active_segment.index.data[16..24], &[0, 0, 0, 2, 0, 0, 0, 28]);
    assert_eq!(
        &partition.active_segment.log[28..],
        &[0, 0, 0, 0, 0, 0, 0, 2, 0, 0, 0, 28, 88, 88]
    );
}

#[test]
fn positions_increase_within_a_segment() {
    let mut partition = Partition::create(String::from("topic"), MaxBytes(128, 64));
    partition.append("YELLOW SUBMARINE".as_bytes()).unwrap();
    partition.append("PURPLE PRESIDENT".as_bytes()).unwrap();
    partition.append("PRECIOUS PENNIES".as_bytes()).unwrap();
    let e0 = partition.active_segment.index.read_log_entry(0).unwrap();
    let e1 = partition.active_segment.index.read_log_entry(1).unwrap();
    let e2 = partition.active_segment.index.read_log_entry(2).unwrap();
    assert_eq!(e0.position, 0);
    assert_eq!(e1.position, 28);
    assert_eq!(e2.position, 56);
    assert!(e0.position < e1.position && e1.position < e2.position);
}

#[test]
fn append_on_exact_cap_rotates_only_the_next_time() {
    let mut partition = Partition::create(String::from("topic"), MaxBytes(28, 16));
    partition.append("YELLOW SUBMARINE".as_bytes()).unwrap();
    assert_eq!(partition.segments.len(), 0, "filling the cap exactly does not rotate");
    partition.append("XX".as_bytes()).unwrap();
    assert_eq!(partition.segments.len(), 1, "the next append does");
}

#[test]
fn scan_skips_foreign_files() {
    let files = vec![
        file("notes.txt", vec![1, 2, 3]),
        file("x.log", vec![]),
        file("00000000000000000000.log", vec![]),
    ];
    let segments = Partition::scan(&files, MaxBytes(64, 64));
    assert_eq!(segments.len(), 1);
    assert_eq!(segments[0].base_offset, 0);
}

#[test]
fn dir_files_lists_log_and_index_per_segment() {
    let mut partition = Partition::create(String::from("topic"), MaxBytes(28, 16));
    partition.append("YELLOW SUBMARINE".as_bytes()).unwrap();
    partition.append("XX".as_bytes()).unwrap();
    let files = partition.dir_files();
    assert_eq!(files.len(), 4);
    assert_eq!(files[0].name, "00000000000000000000.log");
    assert_eq!(files[1].name, "00000000000000000000.index");
    assert_eq!(files[2].name, "00000000000000000001.log");
    assert_eq!(files[3].name, "00000000000000000001.index");
    assert_eq!(files[2].bytes, partition.active_segment.log);
}

#[test]
fn reload_of_written_partition_recovers_next_offset() {
    let mut partition = Partition::create(String::from("topic"), MaxBytes(28, 16));
    partition.append("YELLOW SUBMARINE".as_bytes()).unwrap();
    partition.append("XX".as_bytes()).unwrap();
    partition.append("XX".as_bytes()).unwrap();
    let files = partition.dir_files();
    let reloaded = Partition::load(String::from("topic"), &files, MaxBytes(28, 16));
    assert_eq!(reloaded.active_segment.newest_offset(), partition.active_segment.newest_offset());
    assert_eq!(reloaded.segments.len(), partition.segments.len());
}

#[test]
fn overshoot_stays_in_the_sealed_segment() {
    let mut partition = Partition::create(String::from("topic"), MaxBytes(28, 16));
    // 12-byte header + 30-byte payload overshoots the 28-byte cap
    partition.append(&[7u8; 30]).unwrap();
    assert_eq!(partition.active_segment.size(), 42, "over the cap by one record");
    partition.append("XX".as_bytes()).unwrap();
    assert_eq!(partition.segments.len(), 1, "the next append rotates");
    assert_eq!(partition.segments[0].size(), 42, "the sealed segment keeps the overshoot");
    assert_eq!(partition.active_segment.size(), 14);
    assert_eq!(partition.active_segment.base_offset, 1);
}
