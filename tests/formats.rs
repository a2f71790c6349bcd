use cloud_drive::file::{decode, encode, DecodeError, Options};
use cloud_drive::manifest::{decode_manifest, encode_manifest, reassemble};
use cloud_drive::vfs::{VFSFile, VFSFolder, VFSNode, VirtualFileSystem};

fn file_node(name: &str) -> VFSFile {
    VFSFile {
        name: name.to_string(),
        extension: "txt".to_string(),
        build_metafile: format!("{name}_manifest"),
        parts_name: vec![format!("{name}_0")],
        metadata: "größe=1".to_string(),
    }
}

fn sample_tree() -> VirtualFileSystem {
    let mut fs = VirtualFileSystem::new();
    fs.create_folder("/docs").unwrap();
    fs.create_folder("/docs/old").unwrap();
    fs.add_file("/docs", file_node("report")).unwrap();
    fs.add_file("/docs/old", file_node("draft")).unwrap();
    fs.add_file("/", file_node("читать")).unwrap();
    fs
}

#[test]
fn snapshot_round_trip() {
    let fs = sample_tree();
    let bytes = fs.save_snapshot();
    let back = VirtualFileSystem::load_snapshot(&bytes).unwrap();
    assert_eq!(back, fs);
    assert_eq!(back.get_file("/docs/old/draft"), Ok(file_node("draft")));
}

#[test]
fn empty_tree_snapshot_round_trip() {
    let fs = VirtualFileSystem::new();
    assert_eq!(VirtualFileSystem::load_snapshot(&fs.save_snapshot()), Some(VirtualFileSystem::new()));
}

#[test]
fn damaged_snapshot_is_refused() {
    let bytes = sample_tree().save_snapshot();
    assert_eq!(VirtualFileSystem::load_snapshot(&bytes[..bytes.len() - 1].to_vec()), None);
    let mut longer = bytes.clone();
    longer.push(0);
    assert_eq!(VirtualFileSystem::load_snapshot(&longer), None);
    assert_eq!(VirtualFileSystem::load_snapshot(&Vec::new()), None);
    let mut file_root = bytes.clone();
    file_root[0] = 0;
    assert_eq!(VirtualFileSystem::load_snapshot(&file_root), None);
}

#[test]
fn snapshot_with_duplicate_names_is_refused() {
    let root = VFSFolder {
        name: String::new(),
        metadata: String::new(),
        children: vec![VFSNode::File(file_node("a")), VFSNode::File(file_node("a"))],
    };
    let bytes = VirtualFileSystem { root }.save_snapshot();
    assert_eq!(VirtualFileSystem::load_snapshot(&bytes), None);
}

#[test]
fn manifest_round_trip_and_reassembly() {
    let data: Vec<u8> = (0..777u32).map(|i| (i % 200) as u8).collect();
    let options = Options { path_for_save: None, count_parts: Some(5), part_size: None, compressed: None };
    let sep = encode(&data, "résumé", "pdf", "m1", &options).unwrap();
    let stored = encode_manifest(&sep.manifest);
    let manifest = decode_manifest(&stored).unwrap();
    assert_eq!(manifest, sep.manifest);
    let blobs: Vec<Option<Vec<u8>>> = sep.blobs.iter().map(|b| Some(b.clone())).collect();
    assert_eq!(decode(&manifest, &blobs).unwrap(), data);
}

#[test]
fn damaged_manifest_is_corrupt() {
    let data = vec![7u8; 20];
    let options = Options { path_for_save: None, count_parts: None, part_size: Some(8), compressed: None };
    let sep = encode(&data, "a", "b", "m2", &options).unwrap();
    let stored = encode_manifest(&sep.manifest);
    assert_eq!(decode_manifest(&stored[..stored.len() - 2].to_vec()), Err(DecodeError::ManifestCorrupt));
    let mut longer = stored.clone();
    longer.push(1);
    assert_eq!(decode_manifest(&longer), Err(DecodeError::ManifestCorrupt));
    let mut bad_utf8 = stored.clone();
    bad_utf8[8] = 0xff;
    assert_eq!(decode_manifest(&bad_utf8), Err(DecodeError::ManifestCorrupt));
}

#[test]
fn reassemble_from_stored_manifest() {
    let data: Vec<u8> = (0..90u32).map(|i| (i * 3) as u8).collect();
    let options = Options { path_for_save: None, count_parts: Some(3), part_size: None, compressed: Some(true) };
    let sep = encode(&data, "report", "pdf", "r1", &options).unwrap();
    let stored = encode_manifest(&sep.manifest);
    let mut blobs: Vec<Option<Vec<u8>>> = sep.blobs.iter().map(|b| Some(b.clone())).collect();
    assert_eq!(reassemble(&stored, &blobs), Ok(("report.pdf".to_string(), data)));
    blobs[1] = Some(vec![1, 1]);
    assert_eq!(reassemble(&stored, &blobs), Err(DecodeError::HashMismatch("r1_1".to_string())));
    blobs.pop();
    assert_eq!(reassemble(&stored, &blobs), Err(DecodeError::ManifestCorrupt));
}
