use vstd::prelude::*;

verus! {

/// The materialised path of one entity: the names from the drive's root
/// folder down to the entity, joined by `/`.
#[derive(Debug)]
pub struct InnerPath {
    pub id: String,
    pub drive_id: String,
    pub path: String,
    pub trashed: bool,
}

/// The mathematical value of an [`InnerPath`].
pub struct InnerPathView {
    pub id: Seq<char>,
    pub drive_id: Seq<char>,
    pub path: Seq<char>,
    pub trashed: bool,
}

impl View for InnerPath {
    type V = InnerPathView;

    open spec fn view(&self) -> InnerPathView {
        InnerPathView {
            id: self.id@,
            drive_id: self.drive_id@,
            path: self.path@,
            trashed: self.trashed,
        }
    }
}

/// A path, tagged with the kind of entity that it leads to.
#[derive(Debug)]
pub enum Path {
    File(InnerPath),
    Folder(InnerPath),
}

/// The mathematical value of a [`Path`].
pub struct PathView {
    pub folder: bool,
    pub inner: InnerPathView,
}

impl View for Path {
    type V = PathView;

    open spec fn view(&self) -> PathView {
        match self {
            Path::File(inner) => PathView { folder: false, inner: inner@ },
            Path::Folder(inner) => PathView { folder: true, inner: inner@ },
        }
    }
}

impl Path {
    /// Whether the entity itself is trashed; its ancestors do not count.
    pub fn trashed(&self) -> (r: bool)
        ensures
            r == self@.inner.trashed,
    {
        match self {
            Path::File(inner) => inner.trashed,
            Path::Folder(inner) => inner.trashed,
        }
    }

    /// Builds the path of a folder or of a file.
    pub fn build(folder: bool, inner: InnerPath) -> (r: Path)
        ensures
            r@ == (PathView { folder, inner: inner@ }),
    {
        if folder {
            Path::Folder(inner)
        } else {
            Path::File(inner)
        }
    }
}

/// The path of one changelog entry: of an entity that now exists, or the
/// last known path of one that was removed.
#[derive(Debug)]
pub enum ChangedPath {
    Created(Path),
    Deleted(Path),
}

/// The mathematical value of a [`ChangedPath`].
pub struct ChangedPathView {
    pub deleted: bool,
    pub path: PathView,
}

impl View for ChangedPath {
    type V = ChangedPathView;

    open spec fn view(&self) -> ChangedPathView {
        match self {
            ChangedPath::Created(p) => ChangedPathView { deleted: false, path: p@ },
            ChangedPath::Deleted(p) => ChangedPathView { deleted: true, path: p@ },
        }
    }
}

impl ChangedPath {
    /// Builds the entry from a changelog row.
    pub fn build(deleted: bool, path: Path) -> (r: ChangedPath)
        ensures
            r@ == (ChangedPathView { deleted, path: path@ }),
    {
        if deleted {
            ChangedPath::Deleted(path)
        } else {
            ChangedPath::Created(path)
        }
    }
}

impl From<ChangedPath> for Path {
    fn from(path: ChangedPath) -> (r: Path) {
        match path {
            ChangedPath::Created(path) => path,
            ChangedPath::Deleted(path) => path,
        }
    }
}

impl vstd::std_specs::convert::FromSpecImpl<ChangedPath> for Path {
    open spec fn obeys_from_spec() -> bool {
        true
    }

    open spec fn from_spec(path: ChangedPath) -> Path {
        match path {
            ChangedPath::Created(path) => path,
            ChangedPath::Deleted(path) => path,
        }
    }
}

impl From<Path> for InnerPath {
    fn from(path: Path) -> (r: InnerPath) {
        match path {
            Path::File(inner) => inner,
            Path::Folder(inner) => inner,
        }
    }
}

impl vstd::std_specs::convert::FromSpecImpl<Path> for InnerPath {
    open spec fn obeys_from_spec() -> bool {
        true
    }

    open spec fn from_spec(path: Path) -> InnerPath {
        match path {
            Path::File(inner) => inner,
            Path::Folder(inner) => inner,
        }
    }
}

impl From<ChangedPath> for InnerPath {
    fn from(path: ChangedPath) -> (r: InnerPath) {
        match path {
            ChangedPath::Created(Path::File(inner)) => inner,
            ChangedPath::Created(Path::Folder(inner)) => inner,
            ChangedPath::Deleted(Path::File(inner)) => inner,
            ChangedPath::Deleted(Path::Folder(inner)) => inner,
        }
    }
}

impl vstd::std_specs::convert::FromSpecImpl<ChangedPath> for InnerPath {
    open spec fn obeys_from_spec() -> bool {
        true
    }

    open spec fn from_spec(path: ChangedPath) -> InnerPath {
        match path {
            ChangedPath::Created(Path::File(inner)) => inner,
            ChangedPath::Created(Path::Folder(inner)) => inner,
            ChangedPath::Deleted(Path::File(inner)) => inner,
            ChangedPath::Deleted(Path::Folder(inner)) => inner,
        }
    }
}

} // verus!
