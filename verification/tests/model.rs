use bernard::model::{
    ChangedFile, ChangedFolder, ChangedPath, File, Folder, InnerPath, NewDrive, NewFile, NewFolder,
    Path,
};

fn folder(id: &str, parent: Option<&str>) -> Folder {
    Folder {
        id: id.to_string(),
        drive_id: "D".to_string(),
        name: id.to_string(),
        trashed: false,
        parent: parent.map(|p| p.to_string()),
    }
}

#[test]
fn changed_folder_unwraps_to_its_folder() {
    let f: Folder = ChangedFolder::Deleted(folder("a", Some("D"))).into();
    assert_eq!(f.id, "a");
    assert_eq!(f.parent, Some("D".to_string()));
}

#[test]
fn rows_to_insert_become_owned_rows() {
    let drive = NewDrive { id: "D", page_token: "c1" }.to_drive();
    assert_eq!(drive.id, "D");
    assert_eq!(drive.page_token, "c1");
    let root = NewFolder { id: "D", drive_id: "D", name: "Drive", trashed: false, parent: None };
    let root = root.to_folder();
    assert_eq!(root.id, "D");
    assert_eq!(root.name, "Drive");
    assert_eq!(root.parent, None);
    assert!(!root.trashed);
    let sub = NewFolder { id: "a", drive_id: "D", name: "A", trashed: true, parent: Some("D") };
    assert_eq!(sub.to_folder().parent, Some("D".to_string()));
    assert!(sub.to_folder().trashed);
    let new = NewFile {
        id: "f",
        drive_id: "D",
        name: "F",
        trashed: false,
        parent: Some("a"),
        md5: "m",
        size: 9,
    };
    let file = new.to_file().unwrap();
    assert_eq!(file.id, "f");
    assert_eq!(file.parent, "a");
    assert_eq!(file.md5, "m");
    assert_eq!(file.size, 9);
    let orphan = NewFile { parent: None, ..new };
    assert!(orphan.to_file().is_none());
}

#[test]
fn changed_entries_unwrap_and_tell_trashed() {
    let file = File {
        id: "f".to_string(),
        drive_id: "D".to_string(),
        name: "F".to_string(),
        trashed: false,
        parent: "D".to_string(),
        md5: "m".to_string(),
        size: 1,
    };
    assert!(matches!(ChangedFile::build(true, file.clone()), ChangedFile::Deleted(_)));
    assert!(matches!(ChangedFile::build(false, file.clone()), ChangedFile::Created(_)));
    let back: File = ChangedFile::Created(file).into();
    assert_eq!(back.id, "f");
    assert!(matches!(
        ChangedFolder::build(true, folder("a", None)),
        ChangedFolder::Deleted(_)
    ));
    let inner = |trashed: bool| InnerPath {
        id: "f".to_string(),
        drive_id: "D".to_string(),
        path: "Drive/F".to_string(),
        trashed,
    };
    assert!(Path::File(inner(true)).trashed());
    assert!(!Path::Folder(inner(false)).trashed());
    assert!(matches!(Path::build(true, inner(false)), Path::Folder(_)));
    assert!(matches!(Path::build(false, inner(false)), Path::File(_)));
    let changed = ChangedPath::build(true, Path::File(inner(true)));
    assert!(matches!(&changed, ChangedPath::Deleted(Path::File(_))));
    let path: Path = changed.into();
    assert!(path.trashed());
    let text: InnerPath = ChangedPath::Created(path).into();
    assert_eq!(text.path, "Drive/F");
}
