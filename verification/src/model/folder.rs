use vstd::prelude::*;

verus! {

/// A folder of a drive. The root folder of a drive has the drive's id and
/// no parent; every other folder names its parent folder.
#[derive(Debug)]
pub struct Folder {
    pub id: String,
    pub drive_id: String,
    pub name: String,
    pub trashed: bool,
    pub parent: Option<String>,
}

/// The mathematical value of a [`Folder`].
pub struct FolderView {
    pub id: Seq<char>,
    pub drive_id: Seq<char>,
    pub name: Seq<char>,
    pub trashed: bool,
    pub parent: Option<Seq<char>>,
}

/// The value of an optional string.
pub open spec fn opt_view(s: Option<String>) -> Option<Seq<char>> {
    match s {
        Some(x) => Some(x@),
        None => None,
    }
}

/// Copies an optional string.
pub fn opt_clone(s: &Option<String>) -> (r: Option<String>)
    ensures
        r == *s,
{
    match s {
        Some(x) => Some(x.clone()),
        None => None,
    }
}

impl View for Folder {
    type V = FolderView;

    open spec fn view(&self) -> FolderView {
        FolderView {
            id: self.id@,
            drive_id: self.drive_id@,
            name: self.name@,
            trashed: self.trashed,
            parent: opt_view(self.parent),
        }
    }
}

impl Clone for Folder {
    fn clone(&self) -> (r: Self)
        ensures
            r == *self,
    {
        Folder {
            id: self.id.clone(),
            drive_id: self.drive_id.clone(),
            name: self.name.clone(),
            trashed: self.trashed,
            parent: opt_clone(&self.parent),
        }
    }
}

/// A folder row about to be inserted, borrowed from the caller.
#[derive(Debug)]
pub struct NewFolder<'a> {
    pub id: &'a str,
    pub drive_id: &'a str,
    pub name: &'a str,
    pub trashed: bool,
    pub parent: Option<&'a str>,
}

impl<'a> NewFolder<'a> {
    /// The row that this insertion stores.
    pub open spec fn row(&self) -> FolderView {
        FolderView {
            id: self.id@,
            drive_id: self.drive_id@,
            name: self.name@,
            trashed: self.trashed,
            parent: match self.parent {
                Some(p) => Some(p@),
                None => None,
            },
        }
    }

    /// Builds the owned row.
    pub fn to_folder(&self) -> (r: Folder)
        ensures
            r@ == self.row(),
    {
        let parent = match self.parent {
            Some(p) => Some(p.to_owned()),
            None => None,
        };
        Folder {
            id: self.id.to_owned(),
            drive_id: self.drive_id.to_owned(),
            name: self.name.to_owned(),
            trashed: self.trashed,
            parent,
        }
    }
}

/// One entry of the folder changelog: the folder as it now exists, or the
/// last snapshot of a folder that was removed.
#[derive(Debug)]
pub enum ChangedFolder {
    Created(Folder),
    Deleted(Folder),
}

/// The mathematical value of a [`ChangedFolder`].
pub struct ChangedFolderView {
    pub deleted: bool,
    pub folder: FolderView,
}

impl View for ChangedFolder {
    type V = ChangedFolderView;

    open spec fn view(&self) -> ChangedFolderView {
        match self {
            ChangedFolder::Created(f) => ChangedFolderView { deleted: false, folder: f@ },
            ChangedFolder::Deleted(f) => ChangedFolderView { deleted: true, folder: f@ },
        }
    }
}

impl ChangedFolder {
    /// Builds the entry from a changelog row.
    pub fn build(deleted: bool, folder: Folder) -> (r: ChangedFolder)
        ensures
            r@ == (ChangedFolderView { deleted, folder: folder@ }),
            deleted ==> r == ChangedFolder::Deleted(folder),
            !deleted ==> r == ChangedFolder::Created(folder),
    {
        if deleted {
            ChangedFolder::Deleted(folder)
        } else {
            ChangedFolder::Created(folder)
        }
    }
}

impl From<ChangedFolder> for Folder {
    fn from(folder: ChangedFolder) -> (r: Folder) {
        match folder {
            ChangedFolder::Created(folder) => folder,
            ChangedFolder::Deleted(folder) => folder,
        }
    }
}

impl vstd::std_specs::convert::FromSpecImpl<ChangedFolder> for Folder {
    open spec fn obeys_from_spec() -> bool {
        true
    }

    open spec fn from_spec(folder: ChangedFolder) -> Folder {
        match folder {
            ChangedFolder::Created(folder) => folder,
            ChangedFolder::Deleted(folder) => folder,
        }
    }
}

} // verus!
