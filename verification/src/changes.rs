//! The changelog of one drive, as a consumer reads it after a partial
//! synchronisation.

use vstd::prelude::*;
use crate::database::rows::rows;
use crate::database::tables::in_drive;
use crate::model::{ChangedFile, ChangedFolder, ChangedPath};
use crate::Bernard;

verus! {

/// The changes that the last synchronisation of a drive made.
pub struct Changes<'a> {
    bernard: &'a Bernard,
    drive_id: &'a str,
}

impl<'a> Changes<'a> {
    /// The replica that the changes are read from.
    pub closed spec fn source(&self) -> &Bernard {
        self.bernard
    }

    /// The drive whose changes these are.
    pub closed spec fn drive(&self) -> Seq<char> {
        self.drive_id@
    }

    /// The changes of a drive of a replica.
    pub fn new(bernard: &'a Bernard, drive_id: &'a str) -> (r: Changes<'a>)
        ensures
            r.source() == bernard,
            r.drive() == drive_id@,
    {
        Changes { bernard, drive_id }
    }

    /// The changed paths: those of the folders, then those of the files.
    pub fn paths(&self) -> (r: Vec<ChangedPath>)
        requires
            self.source().wf(),
        ensures
            rows(r@) == self.source().store_view().changed_paths(self.drive()),
    {
        self.bernard.get_changed_paths(self.drive_id)
    }

    /// The changed folders.
    pub fn folders(&self) -> (r: Vec<ChangedFolder>)
        ensures
            rows(r@) == self.source().store_view().folder_log.filter(in_drive(self.drive())),
    {
        self.bernard.get_changed_folders(self.drive_id)
    }

    /// The changed files.
    pub fn files(&self) -> (r: Vec<ChangedFile>)
        ensures
            rows(r@) == self.source().store_view().file_log.filter(in_drive(self.drive())),
    {
        self.bernard.get_changed_files(self.drive_id)
    }
}

} // verus!
