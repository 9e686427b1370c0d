use vstd::prelude::*;

verus! {

/// A file of a drive. Every file lies in exactly one folder.
#[derive(Debug)]
pub struct File {
    pub id: String,
    pub drive_id: String,
    pub name: String,
    pub trashed: bool,
    pub parent: String,
    pub md5: String,
    pub size: i64,
}

/// The mathematical value of a [`File`].
pub struct FileView {
    pub id: Seq<char>,
    pub drive_id: Seq<char>,
    pub name: Seq<char>,
    pub trashed: bool,
    pub parent: Seq<char>,
    pub md5: Seq<char>,
    pub size: int,
}

impl View for File {
    type V = FileView;

    open spec fn view(&self) -> FileView {
        FileView {
            id: self.id@,
            drive_id: self.drive_id@,
            name: self.name@,
            trashed: self.trashed,
            parent: self.parent@,
            md5: self.md5@,
            size: self.size as int,
        }
    }
}

impl Clone for File {
    fn clone(&self) -> (r: Self)
        ensures
            r == *self,
    {
        File {
            id: self.id.clone(),
            drive_id: self.drive_id.clone(),
            name: self.name.clone(),
            trashed: self.trashed,
            parent: self.parent.clone(),
            md5: self.md5.clone(),
            size: self.size,
        }
    }
}

/// A file row about to be inserted, borrowed from the caller. The parent is
/// optional here; a row without one cannot be stored.
#[derive(Debug)]
pub struct NewFile<'a> {
    pub id: &'a str,
    pub drive_id: &'a str,
    pub name: &'a str,
    pub trashed: bool,
    pub parent: Option<&'a str>,
    pub md5: &'a str,
    pub size: i64,
}

impl<'a> NewFile<'a> {
    /// The row that this insertion stores, if it names a parent.
    pub open spec fn row(&self) -> Option<FileView> {
        match self.parent {
            Some(p) => Some(
                FileView {
                    id: self.id@,
                    drive_id: self.drive_id@,
                    name: self.name@,
                    trashed: self.trashed,
                    parent: p@,
                    md5: self.md5@,
                    size: self.size as int,
                },
            ),
            None => None,
        }
    }

    /// Builds the owned row, or nothing where the parent is missing.
    pub fn to_file(&self) -> (r: Option<File>)
        ensures
            r is Some <==> self.parent is Some,
            r matches Some(f) ==> Some(f@) == self.row(),
    {
        match self.parent {
            Some(p) => Some(
                File {
                    id: self.id.to_owned(),
                    drive_id: self.drive_id.to_owned(),
                    name: self.name.to_owned(),
                    trashed: self.trashed,
                    parent: p.to_owned(),
                    md5: self.md5.to_owned(),
                    size: self.size,
                },
            ),
            None => None,
        }
    }
}

/// One entry of the file changelog: the file as it now exists, or the last
/// snapshot of a file that was removed.
#[derive(Debug)]
pub enum ChangedFile {
    Created(File),
    Deleted(File),
}

/// The mathematical value of a [`ChangedFile`].
pub struct ChangedFileView {
    pub deleted: bool,
    pub file: FileView,
}

impl View for ChangedFile {
    type V = ChangedFileView;

    open spec fn view(&self) -> ChangedFileView {
        match self {
            ChangedFile::Created(f) => ChangedFileView { deleted: false, file: f@ },
            ChangedFile::Deleted(f) => ChangedFileView { deleted: true, file: f@ },
        }
    }
}

impl ChangedFile {
    /// Builds the entry from a changelog row.
    pub fn build(deleted: bool, file: File) -> (r: ChangedFile)
        ensures
            r@ == (ChangedFileView { deleted, file: file@ }),
            deleted ==> r == ChangedFile::Deleted(file),
            !deleted ==> r == ChangedFile::Created(file),
    {
        if deleted {
            ChangedFile::Deleted(file)
        } else {
            ChangedFile::Created(file)
        }
    }
}

impl From<ChangedFile> for File {
    fn from(file: ChangedFile) -> (r: File) {
        match file {
            ChangedFile::Created(file) => file,
            ChangedFile::Deleted(file) => file,
        }
    }
}

impl vstd::std_specs::convert::FromSpecImpl<ChangedFile> for File {
    open spec fn obeys_from_spec() -> bool {
        true
    }

    open spec fn from_spec(file: ChangedFile) -> File {
        match file {
            ChangedFile::Created(file) => file,
            ChangedFile::Deleted(file) => file,
        }
    }
}

} // verus!
