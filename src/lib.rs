//! A chunked, integrity-checked file store addressed through a virtual folder tree.
pub mod cloud;
pub mod file;
pub mod manifest;
pub mod path;
pub mod rle;
pub mod snapshot;
pub mod vfs;
pub mod wire;

use vstd::prelude::*;
use crate::cloud::CloudError;

verus! {

/// A remote store of opaque blobs, addressed by the local path of the staged copy.
/// Every method may fail; none is assumed idempotent. For reasoning, a backend has a log
/// of the transfers asked of it: each path with what was returned. A verified
/// implementation defines the log; the empty default stands only for implementations
/// outside verified code, and nothing is proved from it for a backend in general.
pub trait CloudBackend {
    /// The uploads asked so far, in order, with what each returned.
    closed spec fn sent(&self) -> Seq<(Seq<char>, Result<(), CloudError>)> {
        Seq::empty()
    }

    /// The downloads asked so far, in order, with what each returned.
    closed spec fn fetched(&self) -> Seq<(Seq<char>, Result<(), CloudError>)> {
        Seq::empty()
    }

    fn load(&mut self) -> Result<(), CloudError>;

    fn upload_file(&mut self, file_path: &str) -> (r: Result<(), CloudError>)
        ensures
            final(self).sent() == old(self).sent().push((file_path@, r)),
    ;

    fn download_file(&mut self, file_path: &str) -> (r: Result<(), CloudError>)
        ensures
            final(self).fetched() == old(self).fetched().push((file_path@, r)),
    ;

    fn remove_file(&mut self, file_path: &str) -> Result<(), CloudError>;

    fn check_file(&self, file_name: &str) -> bool;

    fn close(self) -> Result<(), CloudError>;
}

} // verus!
