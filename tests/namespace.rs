use cloud_drive::vfs::{VFSError, VFSFile, VFSFolder, VFSNode, VirtualFileSystem};

fn file_node(name: &str) -> VFSFile {
    VFSFile {
        name: name.to_string(),
        extension: "pdf".to_string(),
        build_metafile: format!("{name}_manifest"),
        parts_name: vec![format!("{name}_0"), format!("{name}_1")],
        metadata: String::new(),
    }
}

fn folder_node(name: &str) -> VFSFolder {
    VFSFolder { name: name.to_string(), metadata: String::new(), children: Vec::new() }
}

fn tree_with_docs() -> VirtualFileSystem {
    let mut fs = VirtualFileSystem::new();
    fs.add_folder("/", folder_node("docs")).unwrap();
    fs
}

#[test]
fn added_file_resolves() {
    let mut fs = tree_with_docs();
    fs.add_file("/docs", file_node("report")).unwrap();
    assert_eq!(fs.get_file("/docs/report"), Ok(file_node("report")));
}

#[test]
fn removed_folder_hides_its_files() {
    let mut fs = tree_with_docs();
    fs.add_file("/docs", file_node("report")).unwrap();
    fs.remove_node("/docs").unwrap();
    assert_eq!(fs.get_file("/docs/report"), Err(VFSError::NodeNotFound));
    assert_eq!(fs.get_folder("/docs"), Err(VFSError::FolderNotFound));
}

#[test]
fn removed_file_is_not_found() {
    let mut fs = tree_with_docs();
    fs.add_file("/docs", file_node("report")).unwrap();
    fs.remove_node("/docs/report").unwrap();
    assert_eq!(fs.get_file("/docs/report"), Err(VFSError::FileNotFound));
}

#[test]
fn occupied_file_name_is_refused() {
    let mut fs = tree_with_docs();
    fs.add_file("/docs", file_node("report")).unwrap();
    let mut other = file_node("report");
    other.extension = "txt".to_string();
    assert_eq!(fs.add_file("/docs", other), Err(VFSError::FileAlreadyExists));
    assert_eq!(fs.get_file("/docs/report"), Ok(file_node("report")));
}

#[test]
fn occupied_folder_name_is_refused() {
    let mut fs = tree_with_docs();
    fs.add_file("/docs", file_node("x")).unwrap();
    assert_eq!(fs.add_folder("/", folder_node("docs")), Err(VFSError::FolderAlreadyExists));
    assert_eq!(fs.add_folder("/docs", folder_node("x")), Err(VFSError::FolderAlreadyExists));
    assert_eq!(fs.get_folder("/docs").unwrap().children.len(), 1);
}

#[test]
fn missing_parent_is_folder_not_found() {
    let mut fs = VirtualFileSystem::new();
    assert_eq!(fs.add_file("/nope", file_node("a")), Err(VFSError::FolderNotFound));
    fs.add_file("/", file_node("a")).unwrap();
    assert_eq!(fs.add_file("/a", file_node("b")), Err(VFSError::FolderNotFound));
}

#[test]
fn kind_mismatch_is_node_not_found() {
    let mut fs = tree_with_docs();
    fs.add_file("/docs", file_node("report")).unwrap();
    assert_eq!(fs.get_file("/docs"), Err(VFSError::NodeNotFound));
    assert_eq!(fs.get_folder("/docs/report"), Err(VFSError::NodeNotFound));
    assert_eq!(fs.get_file("/"), Err(VFSError::NodeNotFound));
}

#[test]
fn relative_path_is_a_path_error() {
    let mut fs = tree_with_docs();
    assert!(matches!(fs.get_file("docs/report"), Err(VFSError::PathError { .. })));
    assert!(matches!(fs.add_file("docs", file_node("a")), Err(VFSError::PathError { .. })));
    assert!(matches!(fs.remove_node(""), Err(VFSError::PathError { .. })));
}

#[test]
fn root_cannot_be_removed() {
    let mut fs = tree_with_docs();
    assert!(matches!(fs.remove_node("/"), Err(VFSError::NodeNotRemove { .. })));
    assert!(fs.get_folder("/docs").is_ok());
}

#[test]
fn remove_missing_is_node_not_found() {
    let mut fs = tree_with_docs();
    assert_eq!(fs.remove_node("/docs/none"), Err(VFSError::NodeNotFound));
    assert_eq!(fs.remove_node("/none/deeper"), Err(VFSError::NodeNotFound));
}

#[test]
fn nested_folders_and_extra_slashes() {
    let mut fs = VirtualFileSystem::new();
    fs.create_folder("/a").unwrap();
    fs.create_folder("/a/b").unwrap();
    fs.add_file("//a//b/", file_node("f")).unwrap();
    assert_eq!(fs.get_file("/a/b/f"), Ok(file_node("f")));
    let a = fs.get_folder("/a").unwrap();
    assert!(matches!(&a.children[0], VFSNode::Folder(b) if b.name == "b"));
    fs.remove_node("/a").unwrap();
    assert_eq!(fs.get_folder("/").unwrap().children.len(), 0);
}
