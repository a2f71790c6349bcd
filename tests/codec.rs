use cloud_drive::file::{
    decode, effective_part_size, encode, hash_bytes, make_manifest_name, make_part_name, split_parts, DecodeError,
    EncodeErrors, Options, DEFAULT_PART_SIZE,
};

fn opts(count: Option<u8>, size: Option<usize>) -> Options {
    Options { path_for_save: None, count_parts: count, part_size: size, compressed: None }
}

fn sample(len: usize) -> Vec<u8> {
    (0..len).map(|i| (i * 31 % 251) as u8).collect()
}

fn all_present(blobs: &[Vec<u8>]) -> Vec<Option<Vec<u8>>> {
    blobs.iter().map(|b| Some(b.clone())).collect()
}

#[test]
fn round_trip_by_part_size() {
    let data = sample(1000);
    let sep = encode(&data, "notes", "txt", "t1", &opts(None, Some(128))).unwrap();
    assert_eq!(sep.manifest.parts.len(), 8);
    let back = decode(&sep.manifest, &all_present(&sep.blobs)).unwrap();
    assert_eq!(back, data);
}

#[test]
fn round_trip_by_count() {
    let data = sample(999);
    let sep = encode(&data, "a", "bin", "t2", &opts(Some(3), None)).unwrap();
    assert_eq!(sep.manifest.parts.len(), 3);
    assert_eq!(decode(&sep.manifest, &all_present(&sep.blobs)).unwrap(), data);
}

#[test]
fn round_trip_single_byte_default_size() {
    let data = vec![42u8];
    let sep = encode(&data, "one", "", "t3", &opts(None, None)).unwrap();
    assert_eq!(sep.manifest.parts.len(), 1);
    assert_eq!(decode(&sep.manifest, &all_present(&sep.blobs)).unwrap(), data);
}

#[test]
fn part_count_is_ceiling_of_length_over_size() {
    let data = sample(1001);
    let sep = encode(&data, "x", "y", "t", &opts(None, Some(100))).unwrap();
    assert_eq!(sep.manifest.parts.len(), 11);
    assert_eq!(sep.blobs[10].len(), 1);
    assert!(sep.blobs[..10].iter().all(|b| b.len() == 100));
}

#[test]
fn part_size_larger_than_source_gives_one_part() {
    let data = sample(10);
    let sep = encode(&data, "x", "y", "t", &opts(None, Some(1000))).unwrap();
    assert_eq!(sep.manifest.parts.len(), 1);
    assert_eq!(sep.blobs[0], data);
}

#[test]
fn count_rounds_size_up() {
    assert_eq!(effective_part_size(10, &opts(Some(4), None)), Ok(3));
    assert_eq!(effective_part_size(8, &opts(Some(4), None)), Ok(2));
    assert_eq!(effective_part_size(5, &opts(None, None)), Ok(DEFAULT_PART_SIZE));
}

#[test]
fn invalid_options_are_refused() {
    let data = sample(10);
    assert!(matches!(encode(&data, "x", "y", "t", &opts(Some(2), Some(5))), Err(EncodeErrors::InvalidOptions)));
    assert!(matches!(encode(&data, "x", "y", "t", &opts(Some(0), None)), Err(EncodeErrors::InvalidOptions)));
    assert!(matches!(encode(&data, "x", "y", "t", &opts(None, Some(0))), Err(EncodeErrors::InvalidOptions)));
}

#[test]
fn empty_source_is_refused() {
    let data: Vec<u8> = Vec::new();
    assert!(matches!(encode(&data, "x", "y", "t", &opts(None, Some(5))), Err(EncodeErrors::EmptySource)));
}

#[test]
fn tampered_part_is_named() {
    let data = sample(300);
    let sep = encode(&data, "f", "d", "tid", &opts(None, Some(100))).unwrap();
    let mut blobs = all_present(&sep.blobs);
    let mut bad = sep.blobs[1].clone();
    bad[0] ^= 1;
    blobs[1] = Some(bad);
    assert_eq!(decode(&sep.manifest, &blobs), Err(DecodeError::HashMismatch("tid_1".to_string())));
}

#[test]
fn missing_part_is_named() {
    let data = sample(300);
    let sep = encode(&data, "f", "d", "tid", &opts(None, Some(100))).unwrap();
    let mut blobs = all_present(&sep.blobs);
    blobs[2] = None;
    assert_eq!(decode(&sep.manifest, &blobs), Err(DecodeError::PartMissing("tid_2".to_string())));
}

#[test]
fn wrong_total_length_is_corrupt() {
    let data = sample(300);
    let mut sep = encode(&data, "f", "d", "tid", &opts(None, Some(100))).unwrap();
    sep.manifest.file_len = 299;
    assert_eq!(decode(&sep.manifest, &all_present(&sep.blobs)), Err(DecodeError::ManifestCorrupt));
}

#[test]
fn names_follow_transfer_id() {
    assert_eq!(make_part_name("abc", 0), "abc_0");
    assert_eq!(make_part_name("abc", 1234), "abc_1234");
    assert_eq!(make_manifest_name("abc"), "abc_manifest");
    let sep = encode(&sample(25), "f", "d", "id9", &opts(None, Some(10))).unwrap();
    let names: Vec<&str> = sep.manifest.parts.iter().map(|p| p.part_file_name.as_str()).collect();
    assert_eq!(names, vec!["id9_0", "id9_1", "id9_2"]);
    assert_eq!(sep.metafile, "id9_manifest");
    assert_eq!(sep.manifest.uuid_parts, "id9");
    assert_eq!(sep.manifest.file_len, 25);
}

#[test]
fn hash_is_fnv1a_little_endian() {
    // FNV-1a 64 of the empty input is its offset basis; of "a" it is 0xaf63dc4c8601ec8c.
    assert_eq!(hash_bytes(&Vec::new()), 0xcbf29ce484222325u64.to_le_bytes().to_vec());
    assert_eq!(hash_bytes(&b"a".to_vec()), 0xaf63dc4c8601ec8cu64.to_le_bytes().to_vec());
}

#[test]
fn split_keeps_order() {
    let data = sample(7);
    let parts = split_parts(&data, 3);
    assert_eq!(parts, vec![data[0..3].to_vec(), data[3..6].to_vec(), data[6..7].to_vec()]);
}

#[test]
fn ten_megabytes_in_four_parts() {
    let len = 10 * 1024 * 1024;
    let data = sample(len);
    let sep = encode(&data, "report", "pdf", "big", &opts(Some(4), None)).unwrap();
    assert_eq!(sep.manifest.parts.len(), 4);
    let first = (len + 3) / 4;
    assert!(sep.blobs[..3].iter().all(|b| b.len() == first));
    assert!(sep.blobs[3].len() <= first);
    assert_eq!(decode(&sep.manifest, &all_present(&sep.blobs)).unwrap(), data);
}
