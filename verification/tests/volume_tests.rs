use onyxia::errors::VolumeError;
use onyxia::index::{replay_index_records, IndexRecord};
use onyxia::needle::{Needle, NeedleBody};
use onyxia::volume::Volume;

fn body_of(needle: Needle) -> Vec<u8> {
    match needle.body {
        NeedleBody::SinglePart(part) => part,
        NeedleBody::MultiParts(parts) => {
            let mut all = Vec::new();
            for part in parts {
                all.extend(part);
            }
            all
        },
    }
}

#[test]
fn create_write_get_hello() {
    let mut volume = Volume::new("1.data".to_string(), 1, 1024, false, false).unwrap();
    assert_eq!(volume.current_length, 0);
    assert!(volume.writable());
    volume.write_needle("/a", Needle::new(b"hello".to_vec())).unwrap();
    assert_eq!(volume.current_length, 9);
    let needle = volume.get("/a").unwrap();
    assert_eq!(needle.header.body_length, 5);
    assert_eq!(body_of(needle), b"hello".to_vec());
}

#[test]
fn create_refused_when_files_exist() {
    assert_eq!(
        Volume::new("1.data".to_string(), 1, 1024, true, false).unwrap_err(),
        VolumeError::AlreadyExists { id: 1 }
    );
    assert_eq!(
        Volume::new("1.data".to_string(), 1, 1024, false, true).unwrap_err(),
        VolumeError::AlreadyExists { id: 1 }
    );
}

#[test]
fn overflow_leaves_volume_unchanged() {
    let mut volume = Volume::new("1.data".to_string(), 1, 1024, false, false).unwrap();
    volume.write_needle("/a", Needle::new(b"hello".to_vec())).unwrap();
    let after_first = volume.current_length;
    let big = vec![0u8; 1021];
    let result = volume.write_needle("/b", Needle::new(big));
    assert_eq!(
        result.unwrap_err(),
        VolumeError::Overflow {
            id: 1,
            max_length: 1024,
            current_length: after_first,
            needle_length: 1025,
        }
    );
    assert_eq!(volume.current_length, after_first);
    assert!(matches!(volume.get("/b").unwrap_err(), VolumeError::NotFound));
    assert_eq!(body_of(volume.get("/a").unwrap()), b"hello".to_vec());
}

#[test]
fn full_volume_is_permanently_readonly() {
    let mut volume = Volume::new("7.data".to_string(), 7, 9, false, false).unwrap();
    volume.write_needle("/a", Needle::new(b"hello".to_vec())).unwrap();
    assert_eq!(volume.current_length, 9);
    assert!(volume.readonly());
    assert!(!volume.writable());
    assert_eq!(volume.available_length(), 0);
    let result = volume.write_needle("/b", Needle::new(Vec::new()));
    assert!(matches!(result.unwrap_err(), VolumeError::Overflow { .. }));
}

#[test]
fn write_length_mismatch_rejected_whole() {
    let mut volume = Volume::new("1.data".to_string(), 1, 1024, false, false).unwrap();
    let lying = Needle::from_parts(10, vec![b"abc".to_vec()]);
    assert_eq!(
        volume.write_needle("/a", lying).unwrap_err(),
        VolumeError::WriteLengthMismatch { id: 1, expected: 14, received: 7 }
    );
    assert_eq!(volume.current_length, 0);
    assert_eq!(volume.data.len(), 0);
    assert!(matches!(volume.get("/a").unwrap_err(), VolumeError::NotFound));
}

#[test]
fn overwrite_reads_latest_and_keeps_both_records() {
    let mut volume = Volume::new("1.data".to_string(), 1, 1024, false, false).unwrap();
    volume.write_needle("/a", Needle::new(b"hello".to_vec())).unwrap();
    volume.write_needle("/a", Needle::new(b"world!".to_vec())).unwrap();
    assert_eq!(body_of(volume.get("/a").unwrap()), b"world!".to_vec());
    let (records, consumed) = replay_index_records(&volume.index_log);
    assert_eq!(consumed, volume.index_log.len());
    assert_eq!(records.len(), 2);
    assert!(records.iter().all(|record| record.path == b"/a".to_vec()));
    assert_eq!(records[0].offset, 0);
    assert_eq!(records[0].length, 9);
    assert_eq!(records[1].offset, 9);
    assert_eq!(records[1].length, 10);
}

#[test]
fn reopen_preserves_contents() {
    let mut volume = Volume::new("1.data".to_string(), 1, 1024, false, false).unwrap();
    volume.write_needle("/a", Needle::new(b"hello".to_vec())).unwrap();
    volume.write_needle("/a", Needle::new(b"world!".to_vec())).unwrap();
    let reopened = Volume::open(
        "1.index",
        volume.index_log.clone(),
        volume.data.clone(),
        1024,
    )
    .unwrap();
    assert_eq!(reopened.id, 1);
    assert_eq!(reopened.current_length, volume.current_length);
    assert_eq!(body_of(reopened.get("/a").unwrap()), b"world!".to_vec());
}

#[test]
fn open_detects_truncated_data_file() {
    let mut volume = Volume::new("1.data".to_string(), 1, 1024, false, false).unwrap();
    volume.write_needle("/a", Needle::new(b"hello".to_vec())).unwrap();
    let mut truncated = volume.data.clone();
    truncated.pop();
    let result = Volume::open("1.index", volume.index_log.clone(), truncated, 1024);
    assert_eq!(
        result.unwrap_err(),
        VolumeError::DataCorruption { id: 1, current_length: 8, offset: 0, length: 9 }
    );
    assert!(Volume::open("1.index", volume.index_log.clone(), volume.data.clone(), 1024).is_ok());
}

#[test]
fn open_empty_volume() {
    let volume = Volume::open("3.index", Vec::new(), Vec::new(), 64).unwrap();
    assert_eq!(volume.id, 3);
    assert_eq!(volume.current_length, 0);
    assert!(matches!(volume.get("/a").unwrap_err(), VolumeError::NotFound));
}

#[test]
fn open_drops_torn_trailing_record() {
    let mut volume = Volume::new("1.data".to_string(), 1, 1024, false, false).unwrap();
    volume.write_needle("/a", Needle::new(b"hello".to_vec())).unwrap();
    let mut torn_log = volume.index_log.clone();
    torn_log.extend([2u8, 0, 0]);
    let reopened = Volume::open("1.index", torn_log, volume.data.clone(), 1024).unwrap();
    assert_eq!(reopened.index_log, volume.index_log);
    assert_eq!(body_of(reopened.get("/a").unwrap()), b"hello".to_vec());
}

#[test]
fn open_rejects_wrong_extension_and_bad_stem() {
    assert_eq!(
        Volume::open("1.data", Vec::new(), Vec::new(), 64).unwrap_err(),
        VolumeError::PathParse
    );
    assert_eq!(
        Volume::open("noextension", Vec::new(), Vec::new(), 64).unwrap_err(),
        VolumeError::PathParse
    );
    assert_eq!(
        Volume::open("abc.index", Vec::new(), Vec::new(), 64).unwrap_err(),
        VolumeError::NameParse
    );
    assert_eq!(
        Volume::open("18446744073709551616.index", Vec::new(), Vec::new(), 64).unwrap_err(),
        VolumeError::NameParse
    );
}

#[test]
fn unknown_key_is_not_found() {
    let mut volume = Volume::new("1.data".to_string(), 1, 1024, false, false).unwrap();
    volume.write_needle("/a", Needle::new(b"hello".to_vec())).unwrap();
    assert!(matches!(volume.get("/missing").unwrap_err(), VolumeError::NotFound));
}

#[test]
fn forced_entry_past_current_length_is_corruption() {
    let mut volume = Volume::new("1.data".to_string(), 1, 1024, false, false).unwrap();
    volume.write_needle("/a", Needle::new(b"hello".to_vec())).unwrap();
    volume.indexes.push(IndexRecord {
        path: b"/x".to_vec(),
        volume_id: 1,
        offset: 9999,
        length: 10,
    });
    assert_eq!(
        volume.get("/x").unwrap_err(),
        VolumeError::DataCorruption { id: 1, current_length: 9, offset: 9999, length: 10 }
    );
}

#[test]
fn large_body_reads_back_in_chunks() {
    let mega = 1024 * 1024;
    let mut body = vec![7u8; 2 * mega];
    body[0] = 1;
    body[mega] = 2;
    body[2 * mega - 1] = 3;
    let mut volume = Volume::new("1.data".to_string(), 1, (4 * mega) as u64, false, false)
        .unwrap();
    volume.write_needle("/big", Needle::new(body.clone())).unwrap();
    let needle = volume.get("/big").unwrap();
    assert_eq!(needle.header.body_length as usize, 2 * mega);
    match needle.body {
        NeedleBody::SinglePart(_) => panic!("a large body must come back in chunks"),
        NeedleBody::MultiParts(parts) => {
            assert_eq!(parts.len(), 2);
            assert!(parts.iter().all(|part| part.len() <= mega));
            let total: usize = parts.iter().map(|part| part.len()).sum();
            assert_eq!(total, 2 * mega);
            let mut all = Vec::new();
            for part in parts {
                all.extend(part);
            }
            assert_eq!(all, body);
        },
    }
}

#[test]
fn describe_reports_volume_facts() {
    let mut volume = Volume::new("5.data".to_string(), 5, 1024, false, false).unwrap();
    volume.write_needle("/a", Needle::new(b"hi".to_vec())).unwrap();
    let info = volume.describe();
    assert_eq!(info.id, 5);
    assert_eq!(info.volume_path, "5.data".to_string());
    assert_eq!(info.current_length, 6);
    assert_eq!(info.max_length, 1024);
    assert_eq!(info.index_records, 1);
    assert_eq!(volume.available_length(), 1018);
}
