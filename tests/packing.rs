use cloud_drive::file::{decode, encode, hash_bytes, DecodeError, Options};
use cloud_drive::manifest::{decode_manifest, encode_manifest};
use cloud_drive::rle::{rle_compress, rle_expand};

fn packed(size: usize) -> Options {
    Options { path_for_save: None, count_parts: None, part_size: Some(size), compressed: Some(true) }
}

fn all_present(blobs: &[Vec<u8>]) -> Vec<Option<Vec<u8>>> {
    blobs.iter().map(|b| Some(b.clone())).collect()
}

#[test]
fn runs_are_packed_in_pairs() {
    assert_eq!(rle_compress(&vec![7, 7, 7, 1]), vec![3, 7, 1, 1]);
    assert_eq!(rle_compress(&Vec::new()), Vec::<u8>::new());
    let long = vec![0u8; 300];
    assert_eq!(rle_compress(&long), vec![255, 0, 45, 0]);
    assert_eq!(rle_expand(&vec![3, 7, 1, 1]), Some(vec![7, 7, 7, 1]));
    assert_eq!(rle_expand(&vec![3, 7, 1]), None);
}

#[test]
fn packed_round_trip() {
    let mut data = vec![1u8; 500];
    data.extend((0..300u32).map(|i| (i % 7) as u8));
    let sep = encode(&data, "p", "bin", "pk", &packed(256)).unwrap();
    assert!(sep.manifest.compressed);
    assert_eq!(sep.manifest.parts.len(), 4);
    assert!(sep.blobs[0].len() < 256);
    assert_eq!(sep.manifest.parts[0].hash_bytes, hash_bytes(&sep.blobs[0]));
    let manifest = decode_manifest(&encode_manifest(&sep.manifest)).unwrap();
    assert!(manifest.compressed);
    assert_eq!(decode(&manifest, &all_present(&sep.blobs)).unwrap(), data);
}

#[test]
fn packed_tampering_is_a_hash_mismatch() {
    let data = vec![4u8; 100];
    let sep = encode(&data, "p", "bin", "pk", &packed(40)).unwrap();
    let mut blobs = all_present(&sep.blobs);
    assert_eq!(sep.blobs[2], vec![20, 4]);
    blobs[2] = Some(vec![20, 5]);
    assert_eq!(decode(&sep.manifest, &blobs), Err(DecodeError::HashMismatch("pk_2".to_string())));
}

#[test]
fn packed_part_that_does_not_unpack_is_corrupt() {
    let data = vec![4u8; 100];
    let mut sep = encode(&data, "p", "bin", "pk", &packed(40)).unwrap();
    let odd = vec![40u8, 4, 9];
    sep.manifest.parts[1].hash_bytes = hash_bytes(&odd);
    let mut blobs = all_present(&sep.blobs);
    blobs[1] = Some(odd);
    assert_eq!(decode(&sep.manifest, &blobs), Err(DecodeError::ManifestCorrupt));
}
