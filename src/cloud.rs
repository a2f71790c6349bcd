use vstd::prelude::*;
use crate::CloudBackend;
use crate::file::{CompositeFile, DecodeError, EncodeErrors, SeparationFile};
use crate::path::{is_absolute, path_segments, strings_view};
use crate::vfs::{
    file_result_view, folder_result_view, insert_at, remove_at, resolve_file, resolve_folder, FileModel,
    FolderModel, NodeModel, VFSError, VFSFile, VFSFolder, VirtualFileSystem,
};

verus! {

/// Why an operation of the store failed.
#[derive(Debug, PartialEq, Eq)]
pub enum CloudError {
    IOError { message: String },
    EncodeError(EncodeErrors),
    DecodeError(DecodeError),
    VFSError(VFSError),
    BackendError { message: String },
}

impl From<VFSError> for CloudError {
    fn from(value: VFSError) -> (r: CloudError)
        ensures
            r == CloudError::VFSError(value),
    {
        CloudError::VFSError(value)
    }
}

impl vstd::std_specs::convert::FromSpecImpl<VFSError> for CloudError {
    open spec fn obeys_from_spec() -> bool {
        true
    }

    open spec fn from_spec(v: VFSError) -> CloudError {
        CloudError::VFSError(v)
    }
}

impl From<EncodeErrors> for CloudError {
    fn from(value: EncodeErrors) -> (r: CloudError)
        ensures
            r == CloudError::EncodeError(value),
    {
        CloudError::EncodeError(value)
    }
}

impl vstd::std_specs::convert::FromSpecImpl<EncodeErrors> for CloudError {
    open spec fn obeys_from_spec() -> bool {
        true
    }

    open spec fn from_spec(v: EncodeErrors) -> CloudError {
        CloudError::EncodeError(v)
    }
}

/// The name under which a file is listed: its original name and its extension.
pub open spec fn entry_name(filename: Seq<char>, extension: Seq<char>) -> Seq<char> {
    if extension.len() == 0 {
        filename
    } else {
        filename + seq!['.'] + extension
    }
}

/// The tree entry that records a chunked file.
pub open spec fn entry_for(sep: &SeparationFile) -> FileModel {
    FileModel {
        name: entry_name(sep.manifest.filename@, sep.manifest.file_extension@),
        extension: sep.manifest.file_extension@,
        build_metafile: sep.metafile@,
        parts_name: sep.manifest@.parts.map_values(|p: crate::file::PartModel| p.name),
        metadata: seq![],
    }
}

/// The local paths of `names` in the working directory `work_dir`.
pub open spec fn planned(work_dir: Seq<char>, names: Seq<Seq<char>>) -> Seq<Seq<char>> {
    names.map_values(|n: Seq<char>| work_dir + n)
}

/// Each of `paths`, with a successful result.
pub open spec fn oks(paths: Seq<Seq<char>>) -> Seq<(Seq<char>, Result<(), CloudError>)> {
    paths.map_values(|p: Seq<char>| (p, Ok::<(), CloudError>(())))
}

/// The transfer log went from `before` to `after` by asking for `paths` in order, one
/// each, stopping at the first failure: `r` is `Ok` when every one succeeded, else the
/// error of the one that failed, after which nothing more was asked.
pub open spec fn transferred(
    before: Seq<(Seq<char>, Result<(), CloudError>)>,
    after: Seq<(Seq<char>, Result<(), CloudError>)>,
    paths: Seq<Seq<char>>,
    r: Result<(), CloudError>,
) -> bool {
    match r {
        Ok(()) => after == before + oks(paths),
        Err(e) => exists|k: int|
            0 <= k < paths.len() && after == before + (#[trigger] oks(paths.take(k))).push((paths[k], Err::<(), CloudError>(e))),
    }
}

pub open spec fn unit_result<T>(r: Result<T, CloudError>) -> Result<(), CloudError> {
    match r {
        Ok(_) => Ok(()),
        Err(e) => Err(e),
    }
}

/// The names to transfer for a file entry: its parts in order, then its manifest.
pub open spec fn transfer_order(f: FileModel) -> Seq<Seq<char>> {
    f.parts_name.push(f.build_metafile)
}

pub open spec fn lift_vfs<T>(r: Result<T, VFSError>) -> Result<T, CloudError> {
    match r {
        Ok(v) => Ok(v),
        Err(e) => Err(CloudError::VFSError(e)),
    }
}

/// Builds the listed name of a file.
pub fn make_entry_name(filename: &String, extension: &String) -> (r: String)
    ensures
        r@ == entry_name(filename@, extension@),
{
    let mut r = filename.clone();
    if extension.unicode_len() > 0 {
        proof {
            reveal_strlit(".");
        }
        r.append(".");
        r.append(extension.as_str());
        assert(r@ =~= entry_name(filename@, extension@));
    }
    r
}

/// The file name that reassembling the file of `manifest` writes.
pub fn output_name(manifest: &CompositeFile) -> (r: String)
    ensures
        r@ == entry_name(manifest.filename@, manifest.file_extension@),
{
    make_entry_name(&manifest.filename, &manifest.file_extension)
}

/// The tree entry that records the chunked file `sep`.
pub fn file_entry(sep: &SeparationFile) -> (r: VFSFile)
    ensures
        r@ == entry_for(sep),
{
    let mut names: Vec<String> = Vec::new();
    let mut i: usize = 0;
    let ghost target = sep.manifest@.parts.map_values(|p: crate::file::PartModel| p.name);
    while i < sep.manifest.parts.len()
        invariant
            target == sep.manifest@.parts.map_values(|p: crate::file::PartModel| p.name),
            i <= sep.manifest.parts.len(),
            strings_view(names@) == target.subrange(0, i as int),
        decreases sep.manifest.parts.len() - i,
    {
        let n = sep.manifest.parts[i].part_file_name.clone();
        assert(target[i as int] == n@);
        assert(strings_view(names@.push(n)) =~= strings_view(names@).push(n@));
        names.push(n);
        i = i + 1;
        assert(strings_view(names@) =~= target.subrange(0, i as int));
    }
    assert(target.subrange(0, i as int) =~= target);
    VFSFile {
        name: make_entry_name(&sep.manifest.filename, &sep.manifest.file_extension),
        extension: sep.manifest.file_extension.clone(),
        build_metafile: sep.metafile.clone(),
        parts_name: names,
        metadata: String::new(),
    }
}

/// The names to transfer for `file`, in order: its parts, then its manifest.
pub fn transfer_names(file: &VFSFile) -> (r: Vec<String>)
    ensures
        strings_view(r@) == transfer_order(file@),
{
    let mut r: Vec<String> = Vec::new();
    let mut i: usize = 0;
    while i < file.parts_name.len()
        invariant
            i <= file.parts_name.len(),
            strings_view(r@) == strings_view(file.parts_name@).subrange(0, i as int),
        decreases file.parts_name.len() - i,
    {
        let n = file.parts_name[i].clone();
        assert(strings_view(r@.push(n)) =~= strings_view(r@).push(n@));
        r.push(n);
        i = i + 1;
        assert(strings_view(r@) =~= strings_view(file.parts_name@).subrange(0, i as int));
    }
    let m = file.build_metafile.clone();
    assert(strings_view(r@.push(m)) =~= strings_view(r@).push(m@));
    assert(strings_view(file.parts_name@).subrange(0, i as int) =~= strings_view(file.parts_name@));
    r.push(m);
    assert(strings_view(r@) =~= transfer_order(file@));
    r
}

/// Joins a working directory and a stored name.
pub fn join_path(dir: &String, name: &String) -> (r: String)
    ensures
        r@ == dir@ + name@,
{
    let mut r = dir.clone();
    r.append(name.as_str());
    r
}

/// The store: a namespace tree, a backend that keeps the blobs, and the local working
/// directory where parts are staged.
pub struct Cloud<T: CloudBackend> {
    pub fs: VirtualFileSystem,
    pub backend: T,
    pub work_dir: String,
}

impl<T: CloudBackend> Cloud<T> {
    pub open spec fn wf(&self) -> bool {
        self.fs.wf()
    }

    /// A store over the tree `fs` and the backend `backend`.
    pub fn new(fs: VirtualFileSystem, backend: T, work_dir: String) -> (r: Self)
        ensures
            r.fs == fs,
            r.backend == backend,
            r.work_dir == work_dir,
    {
        Cloud { fs, backend, work_dir }
    }

    /// A copy of the file entry at `path`.
    pub fn get_file(&self, path: &str) -> (r: Result<VFSFile, CloudError>)
        requires
            self.wf(),
        ensures
            !is_absolute(path@) ==> (r matches Err(CloudError::VFSError(VFSError::PathError { .. }))),
            is_absolute(path@) ==> match resolve_file(self.fs@, path_segments(path@)) {
                Ok(f) => r matches Ok(g) && g@ == f,
                Err(e) => r == Err::<VFSFile, CloudError>(CloudError::VFSError(e)),
            },
    {
        match self.fs.get_file(path) {
            Ok(f) => Ok(f),
            Err(e) => Err(CloudError::from(e)),
        }
    }

    /// A copy of the folder at `path`, with everything below it.
    pub fn get_folder(&self, path: &str) -> (r: Result<VFSFolder, CloudError>)
        requires
            self.wf(),
        ensures
            !is_absolute(path@) ==> (r matches Err(CloudError::VFSError(VFSError::PathError { .. }))),
            is_absolute(path@) ==> match resolve_folder(self.fs@, path_segments(path@)) {
                Ok(d) => r matches Ok(g) && crate::vfs::folder_view(&g) == d,
                Err(e) => r == Err::<VFSFolder, CloudError>(CloudError::VFSError(e)),
            },
    {
        match self.fs.get_folder(path) {
            Ok(d) => Ok(d),
            Err(e) => Err(CloudError::from(e)),
        }
    }

    /// Lists the chunked file `separation_file` in the folder at `virtual_path`.
    pub fn add_file(&mut self, separation_file: &SeparationFile, virtual_path: &str) -> (r: Result<(), VFSError>)
        requires
            old(self).wf(),
        ensures
            final(self).wf(),
            final(self).work_dir == old(self).work_dir,
            final(self).backend == old(self).backend,
            !is_absolute(virtual_path@) ==> (r matches Err(VFSError::PathError { .. })) && final(self).fs@ == old(self).fs@,
            is_absolute(virtual_path@) ==> match insert_at(old(self).fs@, path_segments(virtual_path@), NodeModel::File(entry_for(separation_file))) {
                Ok(g) => r is Ok && final(self).fs@ == g,
                Err(e) => r == Err::<(), VFSError>(e) && final(self).fs@ == old(self).fs@,
            },
    {
        let entry = file_entry(separation_file);
        self.fs.add_file(virtual_path, entry)
    }

    /// Creates an empty folder at `virtual_path`.
    pub fn add_folder(&mut self, virtual_path: &str) -> (r: Result<(), VFSError>)
        requires
            old(self).wf(),
        ensures
            final(self).wf(),
            final(self).work_dir == old(self).work_dir,
            final(self).backend == old(self).backend,
            !is_absolute(virtual_path@) ==> (r matches Err(VFSError::PathError { .. })) && final(self).fs@ == old(self).fs@,
            is_absolute(virtual_path@) && path_segments(virtual_path@).len() == 0 ==> r == Err::<(), VFSError>(VFSError::FolderAlreadyExists)
                && final(self).fs@ == old(self).fs@,
            is_absolute(virtual_path@) && path_segments(virtual_path@).len() > 0 ==> match insert_at(
                old(self).fs@,
                path_segments(virtual_path@).drop_last(),
                NodeModel::Folder(FolderModel { name: path_segments(virtual_path@).last(), metadata: seq![], children: seq![] }),
            ) {
                Ok(g) => r is Ok && final(self).fs@ == g,
                Err(e) => r == Err::<(), VFSError>(e) && final(self).fs@ == old(self).fs@,
            },
    {
        self.fs.create_folder(virtual_path)
    }

    fn remove_node(&mut self, path_file: &str) -> (r: Result<(), CloudError>)
        requires
            old(self).wf(),
        ensures
            final(self).wf(),
            final(self).work_dir == old(self).work_dir,
            final(self).backend == old(self).backend,
            !is_absolute(path_file@) ==> (r matches Err(CloudError::VFSError(VFSError::PathError { .. })))
                && final(self).fs@ == old(self).fs@,
            is_absolute(path_file@) && path_segments(path_file@).len() == 0 ==> (r matches Err(
                CloudError::VFSError(VFSError::NodeNotRemove { .. }),
            )) && final(self).fs@ == old(self).fs@,
            is_absolute(path_file@) && path_segments(path_file@).len() > 0 ==> match remove_at(old(self).fs@, path_segments(path_file@)) {
                Ok(g) => r is Ok && final(self).fs@ == g,
                Err(e) => r == Err::<(), CloudError>(CloudError::VFSError(e)) && final(self).fs@ == old(self).fs@,
            },
    {
        match self.fs.remove_node(path_file) {
            Ok(()) => Ok(()),
            Err(e) => Err(CloudError::from(e)),
        }
    }

    /// Removes the file entry at `path_file`. The stored blobs stay at the backend.
    pub fn remove_file(&mut self, path_file: &str) -> (r: Result<(), CloudError>)
        requires
            old(self).wf(),
        ensures
            final(self).wf(),
            final(self).work_dir == old(self).work_dir,
            final(self).backend == old(self).backend,
            !is_absolute(path_file@) ==> (r matches Err(CloudError::VFSError(VFSError::PathError { .. })))
                && final(self).fs@ == old(self).fs@,
            is_absolute(path_file@) && path_segments(path_file@).len() == 0 ==> (r matches Err(
                CloudError::VFSError(VFSError::NodeNotRemove { .. }),
            )) && final(self).fs@ == old(self).fs@,
            is_absolute(path_file@) && path_segments(path_file@).len() > 0 ==> match remove_at(old(self).fs@, path_segments(path_file@)) {
                Ok(g) => r is Ok && final(self).fs@ == g,
                Err(e) => r == Err::<(), CloudError>(CloudError::VFSError(e)) && final(self).fs@ == old(self).fs@,
            },
    {
        self.remove_node(path_file)
    }

    /// Removes the folder at `path_file` with everything below it.
    pub fn remove_folder(&mut self, path_file: &str) -> (r: Result<(), CloudError>)
        requires
            old(self).wf(),
        ensures
            final(self).wf(),
            final(self).work_dir == old(self).work_dir,
            final(self).backend == old(self).backend,
            !is_absolute(path_file@) ==> (r matches Err(CloudError::VFSError(VFSError::PathError { .. })))
                && final(self).fs@ == old(self).fs@,
            is_absolute(path_file@) && path_segments(path_file@).len() == 0 ==> (r matches Err(
                CloudError::VFSError(VFSError::NodeNotRemove { .. }),
            )) && final(self).fs@ == old(self).fs@,
            is_absolute(path_file@) && path_segments(path_file@).len() > 0 ==> match remove_at(old(self).fs@, path_segments(path_file@)) {
                Ok(g) => r is Ok && final(self).fs@ == g,
                Err(e) => r == Err::<(), CloudError>(CloudError::VFSError(e)) && final(self).fs@ == old(self).fs@,
            },
    {
        self.remove_node(path_file)
    }

    /// Sends each name of `names`, in order, from the working directory to the backend,
    /// stopping at the first failure, whose error is returned.
    fn send_all(&mut self, names: &Vec<String>) -> (r: Result<(), CloudError>)
        ensures
            final(self).fs == old(self).fs,
            final(self).work_dir == old(self).work_dir,
            transferred(old(self).backend.sent(), final(self).backend.sent(), planned(old(self).work_dir@, strings_view(names@)), r),
    {
        let ghost paths = planned(self.work_dir@, strings_view(names@));
        let ghost before = self.backend.sent();
        let mut i: usize = 0;
        assert(before + oks(paths.take(0)) =~= before);
        while i < names.len()
            invariant
                self.fs == old(self).fs,
                self.work_dir == old(self).work_dir,
                paths == planned(self.work_dir@, strings_view(names@)),
                before == old(self).backend.sent(),
                i <= names.len(),
                self.backend.sent() == before + oks(paths.take(i as int)),
            decreases names.len() - i,
        {
            let p = join_path(&self.work_dir, &names[i]);
            assert(p@ == paths[i as int]);
            let res = self.backend.upload_file(p.as_str());
            match res {
                Ok(()) => {
                    assert(res is Ok);
                    assert(res->Ok_0 == ());
                    assert(res == Ok::<(), CloudError>(()));
                    assert(paths.take(i + 1) =~= paths.take(i as int).push(paths[i as int]));
                    assert(oks(paths.take(i + 1)) =~= oks(paths.take(i as int)).push((p@, res)));
                },
                Err(e) => {
                    assert(self.backend.sent() == before + oks(paths.take(i as int)).push((paths[i as int], Err(e))));
                    return Err(e);
                },
            }
            i = i + 1;
        }
        assert(paths.take(i as int) =~= paths);
        Ok(())
    }

    /// Fetches each name of `names`, in order, from the backend into the working
    /// directory, stopping at the first failure, whose error is returned.
    fn fetch_all(&mut self, names: &Vec<String>) -> (r: Result<(), CloudError>)
        ensures
            final(self).fs == old(self).fs,
            final(self).work_dir == old(self).work_dir,
            transferred(old(self).backend.fetched(), final(self).backend.fetched(), planned(old(self).work_dir@, strings_view(names@)), r),
    {
        let ghost paths = planned(self.work_dir@, strings_view(names@));
        let ghost before = self.backend.fetched();
        let mut i: usize = 0;
        assert(before + oks(paths.take(0)) =~= before);
        while i < names.len()
            invariant
                self.fs == old(self).fs,
                self.work_dir == old(self).work_dir,
                paths == planned(self.work_dir@, strings_view(names@)),
                before == old(self).backend.fetched(),
                i <= names.len(),
                self.backend.fetched() == before + oks(paths.take(i as int)),
            decreases names.len() - i,
        {
            let p = join_path(&self.work_dir, &names[i]);
            assert(p@ == paths[i as int]);
            let res = self.backend.download_file(p.as_str());
            match res {
                Ok(()) => {
                    assert(res is Ok);
                    assert(res->Ok_0 == ());
                    assert(res == Ok::<(), CloudError>(()));
                    assert(paths.take(i + 1) =~= paths.take(i as int).push(paths[i as int]));
                    assert(oks(paths.take(i + 1)) =~= oks(paths.take(i as int)).push((p@, res)));
                },
                Err(e) => {
                    assert(self.backend.fetched() == before + oks(paths.take(i as int)).push((paths[i as int], Err(e))));
                    return Err(e);
                },
            }
            i = i + 1;
        }
        assert(paths.take(i as int) =~= paths);
        Ok(())
    }

    /// Lists the chunked file `separation_file`, whose parts and manifest are staged in the
    /// working directory, in the folder at `virtual_path`, then sends its parts and then its
    /// manifest to the backend, in manifest order, stopping at the first failure. A refused
    /// listing touches neither the tree nor the backend; a failed transfer leaves the entry
    /// listed and returns the backend's error.
    pub fn async_upload_file(&mut self, separation_file: &SeparationFile, virtual_path: &str) -> (r: Result<(), CloudError>)
        requires
            old(self).wf(),
        ensures
            final(self).wf(),
            final(self).work_dir == old(self).work_dir,
            !is_absolute(virtual_path@) ==> (r matches Err(CloudError::VFSError(VFSError::PathError { .. })))
                && final(self).fs@ == old(self).fs@ && final(self).backend == old(self).backend,
            is_absolute(virtual_path@) ==> match insert_at(old(self).fs@, path_segments(virtual_path@), NodeModel::File(entry_for(separation_file))) {
                Ok(g) => final(self).fs@ == g && transferred(
                    old(self).backend.sent(),
                    final(self).backend.sent(),
                    planned(old(self).work_dir@, transfer_order(entry_for(separation_file))),
                    r,
                ),
                Err(e) => r == Err::<(), CloudError>(CloudError::VFSError(e)) && final(self).fs@ == old(self).fs@
                    && final(self).backend == old(self).backend,
            },
    {
        match self.add_file(separation_file, virtual_path) {
            Ok(()) => {},
            Err(e) => return Err(CloudError::from(e)),
        }
        let entry = file_entry(separation_file);
        let names = transfer_names(&entry);
        self.send_all(&names)
    }

    /// Fetches the parts and then the manifest of the file listed at `virtual_path` into the
    /// working directory, in manifest order, stopping at the first failure, whose error is
    /// returned; hands back the entry when every fetch succeeded. An unresolved path
    /// touches nothing.
    pub fn async_download_file(&mut self, virtual_path: &str) -> (r: Result<VFSFile, CloudError>)
        requires
            old(self).wf(),
        ensures
            final(self).fs == old(self).fs,
            final(self).work_dir == old(self).work_dir,
            !is_absolute(virtual_path@) ==> (r matches Err(CloudError::VFSError(VFSError::PathError { .. })))
                && final(self).backend == old(self).backend,
            is_absolute(virtual_path@) ==> match resolve_file(old(self).fs@, path_segments(virtual_path@)) {
                Ok(f) => (r matches Ok(g) ==> g@ == f) && transferred(
                    old(self).backend.fetched(),
                    final(self).backend.fetched(),
                    planned(old(self).work_dir@, transfer_order(f)),
                    unit_result(r),
                ),
                Err(e) => r == Err::<VFSFile, CloudError>(CloudError::VFSError(e)) && final(self).backend == old(self).backend,
            },
    {
        let file = match self.fs.get_file(virtual_path) {
            Ok(f) => f,
            Err(e) => return Err(CloudError::from(e)),
        };
        let names = transfer_names(&file);
        match self.fetch_all(&names) {
            Ok(()) => Ok(file),
            Err(e) => Err(e),
        }
    }
}

} // verus!
