use onyxia::codec::{decode_header, encode_header};
use onyxia::index::{encode_index_record, replay_index_records};
use onyxia::paths::{
    data_extension, index_extension, render_decimal, sibling_data_path, volume_file_name,
};
use onyxia::volume::{Volume, VolumeExtension};

#[test]
fn header_is_four_little_endian_bytes() {
    let header = encode_header(5);
    assert_eq!(header, vec![5u8, 0, 0, 0]);
    assert_eq!(decode_header(&header), 5);
    let header = encode_header(0x01020304);
    assert_eq!(header, vec![4u8, 3, 2, 1]);
    assert_eq!(decode_header(&header), 0x01020304);
}

#[test]
fn read_records_from_log() {
    let mut log: Vec<u8> = Vec::new();
    let paths = ["/tmp/file1", "/tmp/file2", "/tmp/file3"];
    let offsets = [0u64, 10, 20];
    let lengths = [10u64, 20, 30];
    for i in 0..3 {
        encode_index_record(&mut log, paths[i].as_bytes(), 1, offsets[i], lengths[i]);
    }
    let (records, consumed) = replay_index_records(&log);
    assert_eq!(consumed, log.len());
    assert_eq!(records.len(), 3);
    for i in 0..3 {
        assert_eq!(records[i].path, paths[i].as_bytes().to_vec());
        assert_eq!(records[i].volume_id, 1);
        assert_eq!(records[i].offset, offsets[i]);
        assert_eq!(records[i].length, lengths[i]);
    }
}

#[test]
fn replay_ignores_incomplete_tail() {
    let mut log: Vec<u8> = Vec::new();
    encode_index_record(&mut log, b"/a", 2, 0, 9);
    let whole = log.len();
    log.extend([5u8, 0, 0, 0, b'x']);
    let (records, consumed) = replay_index_records(&log);
    assert_eq!(records.len(), 1);
    assert_eq!(consumed, whole);
    assert_eq!(records[0].path, b"/a".to_vec());
}

#[test]
fn empty_log_replays_to_nothing() {
    let (records, consumed) = replay_index_records(&[]);
    assert_eq!(records.len(), 0);
    assert_eq!(consumed, 0);
}

#[test]
fn extension_classification() {
    assert_eq!(VolumeExtension::from("index"), VolumeExtension::Index);
    assert_eq!(VolumeExtension::from("data"), VolumeExtension::Data);
    assert_eq!(VolumeExtension::from("json"), VolumeExtension::Unknown);
    assert_eq!(VolumeExtension::from(""), VolumeExtension::Unknown);
}

#[test]
fn file_names_round_trip() {
    assert_eq!(render_decimal(0), b"0".to_vec());
    assert_eq!(render_decimal(42), b"42".to_vec());
    assert_eq!(render_decimal(u64::MAX), b"18446744073709551615".to_vec());
    assert_eq!(volume_file_name(7, &data_extension()), b"7.data".to_vec());
    assert_eq!(volume_file_name(7, &index_extension()), b"7.index".to_vec());
    let name = String::from_utf8(volume_file_name(123, &index_extension())).unwrap();
    assert_eq!(Volume::parse_volume_file_stem_name(&name).unwrap(), 123);
    assert_eq!(sibling_data_path(b"/store/7.index"), b"/store/7.data".to_vec());
}

#[test]
fn stem_parsing() {
    assert_eq!(Volume::parse_volume_file_stem_name("42.index").unwrap(), 42);
    assert_eq!(Volume::parse_volume_file_stem_name("/store/of/volumes/7.data").unwrap(), 7);
    assert_eq!(Volume::parse_volume_file_stem_name("0.index").unwrap(), 0);
    assert_eq!(
        Volume::parse_volume_file_stem_name("18446744073709551615.index").unwrap(),
        u64::MAX
    );
    assert!(Volume::parse_volume_file_stem_name("abc.index").is_err());
    assert!(Volume::parse_volume_file_stem_name(".index").is_err());
    assert!(Volume::parse_volume_file_stem_name("18446744073709551616.index").is_err());
}
