//! The rows of the replica and the entries of its changelog.

pub mod drive;
pub mod file;
pub mod folder;
pub mod path;

pub use drive::{Drive, DriveView, NewDrive};
pub use file::{ChangedFile, ChangedFileView, File, FileView, NewFile};
pub use folder::{ChangedFolder, ChangedFolderView, Folder, FolderView, NewFolder};
pub use path::{ChangedPath, ChangedPathView, InnerPath, InnerPathView, Path, PathView};
