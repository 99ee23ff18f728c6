use seglog::partition::Partition;
use seglog::reader::Reader;
use seglog::segment::MaxBytes;

fn write_partition(max_bytes: MaxBytes) -> Partition {
    let mut partition = Partition::create(String::from("topic"), max_bytes);
    let _ = partition.append("YELLOW SUBMARINE".as_bytes()).unwrap();
    let _ = partition.append("PURPLE PRESIDENT".as_bytes()).unwrap();
    let _ = partition.append("PRECIOUS PENNIES".as_bytes()).unwrap();
    partition
}

fn open_reader(offset: u64, partition: &Partition, max_bytes: MaxBytes) -> Option<Reader> {
    let files = partition.dir_files();
    let segments = Partition::scan(&files, max_bytes);
    Reader::new(offset, segments, max_bytes)
}

#[test]
fn no_new_reader_for_empty_partition() {
    let segments = Partition::scan(&vec![], MaxBytes(64, 32));
    let reader = Reader::new(0, segments, MaxBytes(64, 32));

    assert!(reader.is_none(), "there should be no reader");
}

#[test]
fn new_reader() {
    let partition = write_partition(MaxBytes(128, 64));

    let reader = open_reader(0, &partition, MaxBytes(128, 64));
    assert!(reader.is_some(), "reader is some");
    let actual = reader.unwrap();
    assert_eq!(actual.relative_position, 0);
    assert_eq!(actual.offset, 0);
    assert_eq!(actual.max_bytes, MaxBytes(128, 64));
}

#[test]
fn it_can_read_from_one_segment() {
    let partition = write_partition(MaxBytes(128, 64));

    let mut reader = open_reader(0, &partition, MaxBytes(128, 64)).unwrap();

    let mut buf = vec![0u8; 28];
    let n = reader.read(&mut buf);
    assert_eq!(
        buf,
        vec![
            0, 0, 0, 0, 0, 0, 0, 0, 0, 0, 0, 0, //
            89, 69, 76, 76, 79, 87, 32, 83, 85, 66, 77, 65, 82, 73, 78, 69,
        ]
    );
    assert_eq!(n, 28)
}

#[test]
fn it_can_read_from_a_second_segment_in_same_buffer() {
    let partition = write_partition(MaxBytes(24, 32));
    let mut reader = open_reader(0, &partition, MaxBytes(128, 64)).unwrap();

    let mut buf = vec![0u8; 28];
    let n = reader.read(&mut buf);
    assert_eq!(
        buf,
        vec![
            0, 0, 0, 0, 0, 0, 0, 0, 0, 0, 0, 0, //
            89, 69, 76, 76, 79, 87, 32, 83, 85, 66, 77, 65, 82, 73, 78, 69,
        ]
    );
    assert_eq!(n, 28);
}

#[test]
fn it_can_read_into_giant_buffer() {
    let partition = write_partition(MaxBytes(64, 32));
    let mut reader = open_reader(0, &partition, MaxBytes(128, 64)).unwrap();

    let mut buf = vec![0u8; 1024];
    let n = reader.read(&mut buf);

    assert_eq!(buf[27], 69, "E");
    assert_eq!(buf.len(), 1024, "mostly empty buffer");
    assert_eq!(n, 84, "84 bytes read ((16  + HEADER(12)) * 3)");
}

#[test]
fn reader_crosses_all_segments_in_order() {
    let partition = write_partition(MaxBytes(24, 32));
    let mut reader = open_reader(0, &partition, MaxBytes(24, 32)).unwrap();

    let mut buf = vec![0u8; 1024];
    let n = reader.read(&mut buf);
    assert_eq!(n, 84, "three 28-byte frames across three segments");
    assert_eq!(&buf[12..28], "YELLOW SUBMARINE".as_bytes());
    assert_eq!(&buf[40..56], "PURPLE PRESIDENT".as_bytes());
    assert_eq!(&buf[68..84], "PRECIOUS PENNIES".as_bytes());
}

#[test]
fn reader_starts_at_a_later_offset() {
    let partition = write_partition(MaxBytes(128, 64));
    let mut reader = open_reader(2, &partition, MaxBytes(128, 64)).unwrap();

    let mut buf = vec![0u8; 28];
    let n = reader.read(&mut buf);
    assert_eq!(n, 28);
    assert_eq!(&buf[12..28], "PRECIOUS PENNIES".as_bytes());
}

#[test]
fn no_reader_before_the_first_segment() {
    let log_88 = vec![0u8; 28];
    let files = vec![seglog::partition::DirFile {
        name: String::from("00000000000000000088.log"),
        bytes: log_88,
    }];
    let segments = Partition::scan(&files, MaxBytes(64, 32));
    assert_eq!(segments.len(), 1);
    let reader = Reader::new(0, segments, MaxBytes(64, 32));
    assert!(reader.is_none(), "offset 0 lies before base 88");
}

#[test]
fn successive_reads_drain_the_stream() {
    let partition = write_partition(MaxBytes(64, 32));
    let mut reader = open_reader(0, &partition, MaxBytes(64, 32)).unwrap();

    let mut buf = vec![0u8; 30];
    assert_eq!(reader.read(&mut buf), 30);
    assert_eq!(reader.read(&mut buf), 30);
    assert_eq!(reader.read(&mut buf), 24);
    assert_eq!(reader.read(&mut buf), 0);
}
