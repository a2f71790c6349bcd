use cloud_drive::cloud::{output_name, transfer_names, Cloud, CloudError};
use cloud_drive::file::{decode, encode, Options};
use cloud_drive::vfs::{VFSError, VirtualFileSystem};
use cloud_drive::CloudBackend;

/// Keeps what it is sent in memory; can be told to fail from a given call on.
struct MemoryBackend {
    sent: Vec<String>,
    fetched: Vec<String>,
    attempts: Vec<String>,
    fail_from: Option<usize>,
}

impl MemoryBackend {
    fn new() -> Self {
        MemoryBackend { sent: Vec::new(), fetched: Vec::new(), attempts: Vec::new(), fail_from: None }
    }
}

impl CloudBackend for MemoryBackend {
    fn load(&mut self) -> Result<(), CloudError> {
        Ok(())
    }

    fn upload_file(&mut self, file_path: &str) -> Result<(), CloudError> {
        self.attempts.push(file_path.to_string());
        if self.fail_from.map_or(false, |n| self.sent.len() >= n) {
            return Err(CloudError::BackendError { message: file_path.to_string() });
        }
        self.sent.push(file_path.to_string());
        Ok(())
    }

    fn download_file(&mut self, file_path: &str) -> Result<(), CloudError> {
        self.attempts.push(file_path.to_string());
        if self.fail_from.map_or(false, |n| self.fetched.len() >= n) {
            return Err(CloudError::BackendError { message: format!("fetch {file_path}") });
        }
        self.fetched.push(file_path.to_string());
        Ok(())
    }

    fn remove_file(&mut self, _file_path: &str) -> Result<(), CloudError> {
        Ok(())
    }

    fn check_file(&self, file_name: &str) -> bool {
        self.sent.iter().any(|s| s.ends_with(file_name))
    }

    fn close(self) -> Result<(), CloudError> {
        Ok(())
    }
}

fn opts(count: Option<u8>) -> Options {
    Options { path_for_save: None, count_parts: count, part_size: None, compressed: None }
}

fn store() -> Cloud<MemoryBackend> {
    let mut cloud = Cloud::new(VirtualFileSystem::new(), MemoryBackend::new(), "work/".to_string());
    cloud.add_folder("/docs").unwrap();
    cloud
}

#[test]
fn upload_sends_parts_then_manifest() {
    let mut cloud = store();
    let data: Vec<u8> = (0..100u32).map(|i| i as u8).collect();
    let sep = encode(&data, "report", "pdf", "u1", &opts(Some(4))).unwrap();
    cloud.async_upload_file(&sep, "/docs").unwrap();
    assert_eq!(cloud.backend.sent, vec!["work/u1_0", "work/u1_1", "work/u1_2", "work/u1_3", "work/u1_manifest"]);
    let entry = cloud.get_file("/docs/report.pdf").unwrap();
    assert_eq!(entry.parts_name, vec!["u1_0", "u1_1", "u1_2", "u1_3"]);
    assert_eq!(entry.build_metafile, "u1_manifest");
    assert_eq!(entry.extension, "pdf");
}

#[test]
fn second_upload_to_same_path_is_refused() {
    let mut cloud = store();
    let data = vec![1u8, 2, 3];
    let sep = encode(&data, "report", "pdf", "u1", &opts(None)).unwrap();
    cloud.async_upload_file(&sep, "/docs").unwrap();
    let again = encode(&data, "report", "pdf", "u2", &opts(None)).unwrap();
    assert_eq!(cloud.async_upload_file(&again, "/docs"), Err(CloudError::VFSError(VFSError::FileAlreadyExists)));
    assert_eq!(cloud.backend.sent.len(), 2);
    assert_eq!(cloud.get_file("/docs/report.pdf").unwrap().build_metafile, "u1_manifest");
}

#[test]
fn failed_transfer_keeps_entry() {
    let mut cloud = store();
    cloud.backend.fail_from = Some(1);
    let data = vec![9u8; 50];
    let sep = encode(&data, "f", "bin", "u3", &opts(Some(2))).unwrap();
    assert!(matches!(cloud.async_upload_file(&sep, "/docs"), Err(CloudError::BackendError { .. })));
    assert!(cloud.get_file("/docs/f.bin").is_ok());
}

#[test]
fn download_fetches_in_manifest_order() {
    let mut cloud = store();
    let data: Vec<u8> = (0..30u8).collect();
    let sep = encode(&data, "a", "txt", "d1", &opts(Some(3))).unwrap();
    cloud.async_upload_file(&sep, "/docs").unwrap();
    let entry = cloud.async_download_file("/docs/a.txt").unwrap();
    assert_eq!(cloud.backend.fetched, vec!["work/d1_0", "work/d1_1", "work/d1_2", "work/d1_manifest"]);
    assert_eq!(transfer_names(&entry), vec!["d1_0", "d1_1", "d1_2", "d1_manifest"]);
    assert_eq!(output_name(&sep.manifest), "a.txt");
}

#[test]
fn download_of_missing_entry_fails() {
    let mut cloud = store();
    assert_eq!(cloud.async_download_file("/docs/none"), Err(CloudError::VFSError(VFSError::FileNotFound)));
    assert!(cloud.backend.fetched.is_empty());
}

#[test]
fn remove_file_and_folder() {
    let mut cloud = store();
    let sep = encode(&vec![5u8; 10], "r", "pdf", "x", &opts(None)).unwrap();
    cloud.async_upload_file(&sep, "/docs").unwrap();
    cloud.remove_file("/docs/r.pdf").unwrap();
    assert_eq!(cloud.get_file("/docs/r.pdf"), Err(CloudError::VFSError(VFSError::FileNotFound)));
    cloud.remove_folder("/docs").unwrap();
    assert_eq!(cloud.get_folder("/docs"), Err(CloudError::VFSError(VFSError::FolderNotFound)));
    assert_eq!(cloud.remove_file("/docs"), Err(CloudError::VFSError(VFSError::NodeNotFound)));
}

#[test]
fn from_conversions_wrap_errors() {
    assert_eq!(CloudError::from(VFSError::NodeNotFound), CloudError::VFSError(VFSError::NodeNotFound));
    assert_eq!(
        CloudError::from(cloud_drive::file::EncodeErrors::EmptySource),
        CloudError::EncodeError(cloud_drive::file::EncodeErrors::EmptySource)
    );
}

#[test]
fn ten_megabyte_scenario() {
    let mut cloud = store();
    let len = 10 * 1024 * 1024;
    let data: Vec<u8> = (0..len).map(|i| (i % 253) as u8).collect();
    let sep = encode(&data, "report", "pdf", "big", &opts(Some(4))).unwrap();
    assert_eq!(sep.manifest.parts.len(), 4);
    cloud.async_upload_file(&sep, "/docs").unwrap();
    let again = encode(&data, "report", "pdf", "big2", &opts(Some(4))).unwrap();
    assert_eq!(cloud.async_upload_file(&again, "/docs"), Err(CloudError::VFSError(VFSError::FileAlreadyExists)));
    let entry = cloud.async_download_file("/docs/report.pdf").unwrap();
    assert_eq!(entry.parts_name.len(), 4);
    let blobs: Vec<Option<Vec<u8>>> = sep.blobs.iter().map(|b| Some(b.clone())).collect();
    assert_eq!(decode(&sep.manifest, &blobs).unwrap(), data);
    cloud.remove_file("/docs/report.pdf").unwrap();
    assert_eq!(cloud.get_file("/docs/report.pdf"), Err(CloudError::VFSError(VFSError::FileNotFound)));
}

#[test]
fn failed_upload_stops_and_returns_the_backend_error() {
    let mut cloud = store();
    cloud.backend.fail_from = Some(2);
    let sep = encode(&vec![3u8; 40], "f", "bin", "s1", &opts(Some(4))).unwrap();
    assert_eq!(
        cloud.async_upload_file(&sep, "/docs"),
        Err(CloudError::BackendError { message: "work/s1_2".to_string() })
    );
    assert_eq!(cloud.backend.attempts, vec!["work/s1_0", "work/s1_1", "work/s1_2"]);
}

#[test]
fn refused_listing_touches_no_backend() {
    let mut cloud = store();
    let sep = encode(&vec![3u8; 40], "f", "bin", "s2", &opts(Some(2))).unwrap();
    assert_eq!(cloud.async_upload_file(&sep, "/nope"), Err(CloudError::VFSError(VFSError::FolderNotFound)));
    assert!(cloud.backend.attempts.is_empty());
}

#[test]
fn failed_download_stops_and_returns_the_backend_error() {
    let mut cloud = store();
    let sep = encode(&vec![3u8; 40], "g", "bin", "s3", &opts(Some(3))).unwrap();
    cloud.async_upload_file(&sep, "/docs").unwrap();
    cloud.backend.attempts.clear();
    cloud.backend.fail_from = Some(1);
    assert_eq!(
        cloud.async_download_file("/docs/g.bin"),
        Err(CloudError::BackendError { message: "fetch work/s3_1".to_string() })
    );
    assert_eq!(cloud.backend.attempts, vec!["work/s3_0", "work/s3_1"]);
}
