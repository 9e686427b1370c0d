use bernard::database::{self, Error, Store};
use bernard::fetch::{Change, Item, PartialDrive};
use bernard::model::{ChangedFile, ChangedFolder, File, Folder};

fn folder(id: &str, parent: Option<&str>) -> Folder {
    Folder {
        id: id.to_string(),
        drive_id: "D".to_string(),
        name: id.to_string(),
        trashed: false,
        parent: parent.map(|p| p.to_string()),
    }
}

fn file(id: &str, parent: &str) -> File {
    File {
        id: id.to_string(),
        drive_id: "D".to_string(),
        name: id.to_string(),
        trashed: false,
        parent: parent.to_string(),
        md5: "d41d8cd98f00b204e9800998ecf8427e".to_string(),
        size: 7,
    }
}

fn ids_of_folders(store: &Store) -> Vec<String> {
    let mut ids: Vec<String> = store.folders("D").into_iter().map(|f| f.id).collect();
    ids.sort();
    ids
}

fn ids_of_files(store: &Store) -> Vec<String> {
    let mut ids: Vec<String> = store.files("D").into_iter().map(|f| f.id).collect();
    ids.sort();
    ids
}

fn seeded() -> Store {
    let mut store = Store::new();
    let items = vec![
        Item::File(file("doc", "sub")),
        Item::Folder(folder("deep", Some("sub"))),
        Item::Folder(folder("sub", Some("D"))),
        Item::File(file("f1", "D")),
    ];
    let skipped = database::add_drive(&mut store, "D", "Drive", "c1", items).unwrap();
    assert!(skipped.is_empty());
    store
}

#[test]
fn add_drive_inserts_whatever_the_order_of_the_listing() {
    let store = seeded();
    assert_eq!(ids_of_folders(&store), vec!["D", "deep", "sub"]);
    assert_eq!(ids_of_files(&store), vec!["doc", "f1"]);
    assert_eq!(database::get_drive(&store, "D").unwrap().page_token, "c1");
    assert!(database::get_changed_folders(&store, "D").is_empty());
    assert!(database::get_changed_files(&store, "D").is_empty());
}

#[test]
fn add_drive_hands_back_orphans_and_foreign_items() {
    let mut store = Store::new();
    let mut foreign = folder("x", Some("E"));
    foreign.drive_id = "E".to_string();
    let items = vec![
        Item::Folder(folder("lost", Some("nowhere"))),
        Item::File(file("stray", "lost")),
        Item::Folder(foreign),
        Item::Folder(folder("sub", Some("D"))),
        Item::Folder(folder("rootless", None)),
    ];
    let skipped = database::add_drive(&mut store, "D", "Drive", "c1", items).unwrap();
    let ids: Vec<&str> = skipped.iter().map(|i| i.id()).collect();
    assert_eq!(ids, vec!["lost", "stray", "x", "rootless"]);
    assert_eq!(ids_of_folders(&store), vec!["D", "sub"]);
    assert!(ids_of_files(&store).is_empty());
}

#[test]
fn add_drive_twice_is_refused_and_changes_nothing() {
    let mut store = seeded();
    let r = database::add_drive(&mut store, "D", "Other", "c9", vec![]);
    assert_eq!(r.err(), Some(Error::UnknownError));
    assert_eq!(database::get_drive(&store, "D").unwrap().page_token, "c1");
    assert_eq!(ids_of_folders(&store), vec!["D", "deep", "sub"]);
}

#[test]
fn add_drive_refuses_a_listing_with_one_row_twice() {
    let mut store = Store::new();
    let items = vec![Item::Folder(folder("a", Some("D"))), Item::Folder(folder("a", Some("D")))];
    assert_eq!(database::add_drive(&mut store, "D", "Drive", "c1", items).err(), Some(Error::UnknownError));
    assert!(database::get_drive(&store, "D").is_none());
    let items = vec![Item::Folder(folder("D", Some("D")))];
    assert_eq!(database::add_drive(&mut store, "D", "Drive", "c1", items).err(), Some(Error::UnknownError));
    // a file and a folder may share an id: they are rows of two tables
    let items = vec![Item::Folder(folder("a", Some("D"))), Item::File(file("a", "D"))];
    assert!(database::add_drive(&mut store, "D", "Drive", "c1", items).is_ok());
}

#[test]
fn merge_removes_a_file_and_logs_it() {
    let mut store = Store::new();
    database::add_drive(&mut store, "D", "Drive", "c1", vec![Item::File(file("f1", "D"))]).unwrap();
    database::clear_changelog(&mut store, "D");
    let r = database::merge_changes(&mut store, "D", vec![Change::ItemRemoved("f1".to_string())], "c2");
    assert_eq!(r, Ok(()));
    let changed = database::get_changed_files(&store, "D");
    assert_eq!(changed.len(), 1);
    match &changed[0] {
        ChangedFile::Deleted(f) => assert_eq!(f.id, "f1"),
        ChangedFile::Created(_) => panic!("f1 was removed"),
    }
    assert!(ids_of_files(&store).is_empty());
    assert_eq!(database::get_drive(&store, "D").unwrap().page_token, "c2");
    assert!(database::get_changed_folders(&store, "D").is_empty());
}

#[test]
fn merge_takes_a_moved_away_item_as_removed() {
    let mut store = seeded();
    let mut moved = file("doc", "elsewhere");
    moved.drive_id = "E".to_string();
    database::merge_changes(&mut store, "D", vec![Change::ItemChanged(Item::File(moved))], "c2").unwrap();
    assert_eq!(ids_of_files(&store), vec!["f1"]);
    let changed = database::get_changed_files(&store, "D");
    assert_eq!(changed.len(), 1);
    assert!(matches!(&changed[0], ChangedFile::Deleted(f) if f.id == "doc" && f.drive_id == "D"));
}

#[test]
fn merge_removes_a_folder_with_all_below_it() {
    let mut store = seeded();
    database::merge_changes(&mut store, "D", vec![Change::ItemRemoved("sub".to_string())], "c2").unwrap();
    assert_eq!(ids_of_folders(&store), vec!["D"]);
    assert_eq!(ids_of_files(&store), vec!["f1"]);
    let mut gone: Vec<String> = database::get_changed_folders(&store, "D")
        .into_iter()
        .map(|c| match c {
            ChangedFolder::Deleted(f) => f.id,
            ChangedFolder::Created(f) => panic!("{} was removed", f.id),
        })
        .collect();
    gone.sort();
    assert_eq!(gone, vec!["deep", "sub"]);
    let files = database::get_changed_files(&store, "D");
    assert_eq!(files.len(), 1);
    assert!(matches!(&files[0], ChangedFile::Deleted(f) if f.id == "doc"));
}

#[test]
fn merge_upserts_and_logs_the_final_state_once() {
    let mut store = seeded();
    let mut renamed = file("f1", "D");
    renamed.name = "first".to_string();
    let mut again = file("f1", "sub");
    again.name = "second".to_string();
    let changes = vec![
        Change::ItemChanged(Item::Folder(folder("new", Some("deep")))),
        Change::ItemChanged(Item::File(renamed)),
        Change::ItemChanged(Item::File(again)),
        Change::DriveRemoved("D".to_string()),
    ];
    database::merge_changes(&mut store, "D", changes, "c2").unwrap();
    assert_eq!(ids_of_folders(&store), vec!["D", "deep", "new", "sub"]);
    let files = database::get_changed_files(&store, "D");
    assert_eq!(files.len(), 1);
    assert!(matches!(&files[0], ChangedFile::Created(f) if f.name == "second" && f.parent == "sub"));
    let folders = database::get_changed_folders(&store, "D");
    assert_eq!(folders.len(), 1);
    assert!(matches!(&folders[0], ChangedFolder::Created(f) if f.id == "new"));
}

#[test]
fn merge_with_an_unknown_parent_fails_and_rolls_back() {
    let mut store = seeded();
    let changes = vec![
        Change::ItemRemoved("f1".to_string()),
        Change::ItemChanged(Item::File(file("late", "not-yet-known"))),
    ];
    let r = database::merge_changes(&mut store, "D", changes, "c2");
    assert_eq!(r, Err(Error::DataIntegrityError));
    assert_eq!(ids_of_files(&store), vec!["doc", "f1"]);
    assert_eq!(database::get_drive(&store, "D").unwrap().page_token, "c1");
    assert!(database::get_changed_files(&store, "D").is_empty());
}

#[test]
fn merge_refuses_to_put_a_folder_below_itself() {
    let mut store = seeded();
    let r = database::merge_changes(&mut store, 
        "D",
        vec![Change::ItemChanged(Item::Folder(folder("sub", Some("deep"))))],
        "c2",
    );
    assert_eq!(r, Err(Error::DataIntegrityError));
    let r = database::merge_changes(&mut store, 
        "D",
        vec![Change::ItemChanged(Item::Folder(folder("sub", Some("sub"))))],
        "c2",
    );
    assert_eq!(r, Err(Error::DataIntegrityError));
    let r = database::merge_changes(&mut store, 
        "D",
        vec![Change::ItemChanged(Item::Folder(folder("second-root", None)))],
        "c2",
    );
    assert_eq!(r, Err(Error::DataIntegrityError));
    // moving a folder sideways is fine
    let r = database::merge_changes(&mut store, 
        "D",
        vec![Change::ItemChanged(Item::Folder(folder("deep", Some("D"))))],
        "c2",
    );
    assert_eq!(r, Ok(()));
}

#[test]
fn merge_into_a_drive_that_is_not_there_cannot_upsert() {
    let mut store = Store::new();
    let r = database::merge_changes(&mut store, "D", vec![Change::ItemRemoved("x".to_string())], "c2");
    assert_eq!(r, Ok(()));
    assert!(database::get_drive(&store, "D").is_none());
    let r = database::merge_changes(&mut store, "D", vec![Change::ItemChanged(Item::Folder(folder("D", None)))], "c2");
    assert_eq!(r, Err(Error::DataIntegrityError));
}

#[test]
fn rename_changes_the_root_folder_only() {
    let mut store = seeded();
    let rename = PartialDrive { id: "D".to_string(), name: "New".to_string() };
    let other = PartialDrive { id: "E".to_string(), name: "Other".to_string() };
    let batch = vec![Change::DriveChanged(rename), Change::DriveChanged(other)];
    database::merge_changes(&mut store, "D", batch, "c2").unwrap();
    let root = store.folders("D").into_iter().find(|f| f.id == "D").unwrap();
    assert_eq!(root.name, "New");
    assert_eq!(root.parent, None);
    let folders = database::get_changed_folders(&store, "D");
    assert_eq!(folders.len(), 1);
    assert!(matches!(&folders[0], ChangedFolder::Created(f) if f.id == "D" && f.name == "New"));
}

#[test]
fn remove_drive_takes_everything_of_the_drive_and_nothing_else() {
    let mut store = seeded();
    let mut other = folder("o", Some("E"));
    other.drive_id = "E".to_string();
    database::add_drive(&mut store, "E", "Else", "e1", vec![Item::Folder(other)]).unwrap();
    database::merge_changes(&mut store, "D", vec![Change::ItemRemoved("f1".to_string())], "c2").unwrap();
    database::remove_drive(&mut store, "D");
    assert!(database::get_drive(&store, "D").is_none());
    assert!(store.folders("D").is_empty());
    assert!(store.files("D").is_empty());
    assert!(database::get_changed_files(&store, "D").is_empty());
    assert_eq!(store.folders("E").len(), 2);
    // removing it again changes nothing, and the drive can be added anew
    database::remove_drive(&mut store, "D");
    assert!(database::add_drive(&mut store, "D", "Drive", "c3", vec![]).is_ok());
}

#[test]
fn every_folder_hangs_on_the_root_after_any_merge() {
    let mut store = seeded();
    let batches = vec![
        vec![
            Change::ItemChanged(Item::Folder(folder("x", Some("deep")))),
            Change::ItemChanged(Item::Folder(folder("y", Some("x")))),
            Change::ItemChanged(Item::Folder(folder("sub", Some("D")))),
            Change::ItemChanged(Item::Folder(folder("deep", Some("D")))),
        ],
        vec![Change::ItemChanged(Item::Folder(folder("deep", Some("y"))))],
        vec![
            Change::ItemRemoved("x".to_string()),
            Change::ItemChanged(Item::Folder(folder("z", Some("sub")))),
        ],
        vec![Change::ItemChanged(Item::Folder(folder("z", Some("x"))))],
    ];
    let expected = [Ok(()), Err(Error::DataIntegrityError), Ok(()), Err(Error::DataIntegrityError)];
    for (batch, want) in batches.into_iter().zip(expected) {
        assert_eq!(database::merge_changes(&mut store, "D", batch, "c"), want);
        let folders = store.folders("D");
        for f in folders.iter() {
            let mut at = f;
            let mut steps = 0;
            while let Some(p) = &at.parent {
                at = folders.iter().find(|g| &g.id == p).expect("the parent is in the drive");
                steps += 1;
                assert!(steps <= folders.len(), "the parents run in a circle");
            }
            assert_eq!(at.id, "D");
        }
        for y in store.files("D") {
            assert!(folders.iter().any(|g| g.id == y.parent));
        }
    }
    assert_eq!(ids_of_folders(&store), vec!["D", "deep", "sub", "z"]);
}

#[test]
fn other_drives_are_left_alone_by_a_merge() {
    let mut store = seeded();
    let mut other = folder("sub", Some("E"));
    other.drive_id = "E".to_string();
    database::add_drive(&mut store, "E", "Else", "e1", vec![Item::Folder(other)]).unwrap();
    let batch = vec![
        Change::ItemRemoved("sub".to_string()),
        Change::ItemRemoved("E".to_string()),
    ];
    database::merge_changes(&mut store, "D", batch, "c2").unwrap();
    assert_eq!(store.folders("E").len(), 2);
    assert!(database::get_changed_folders(&store, "E").is_empty());
    assert_eq!(database::get_drive(&store, "E").unwrap().page_token, "e1");
    assert_eq!(database::get_drive(&store, "D").unwrap().page_token, "c2");
    // clearing one changelog leaves the other
    database::merge_changes(&mut store, "E", vec![Change::ItemRemoved("sub".to_string())], "e2")
        .unwrap();
    database::clear_changelog(&mut store, "D");
    assert!(database::get_changed_folders(&store, "D").is_empty());
    assert_eq!(database::get_changed_folders(&store, "E").len(), 1);
}

#[test]
fn replicas_are_told_apart_by_their_rows() {
    let store = seeded();
    let copy = store.copy();
    assert!(store.same_as(&copy));
    assert!(copy.same_as(&store));
    assert!(Store::new().same_as(&Store::new()));
    assert!(!store.same_as(&Store::new()));
    // a cleared changelog that was empty is no change
    let mut cleared = store.copy();
    database::clear_changelog(&mut cleared, "D");
    assert!(cleared.same_as(&store));
    // a new cursor is one
    let mut moved = store.copy();
    database::merge_changes(&mut moved, "D", vec![], "c2").unwrap();
    assert!(!moved.same_as(&store));
    // and so are a changed row and a changelog entry
    let mut merged = store.copy();
    let mut renamed = file("f1", "D");
    renamed.name = "other".to_string();
    database::merge_changes(&mut merged, "D", vec![Change::ItemChanged(Item::File(renamed))], "c1")
        .unwrap();
    assert!(!merged.same_as(&store));
    let mut again = merged.copy();
    database::clear_changelog(&mut again, "D");
    assert!(!again.same_as(&merged));
    assert!(!again.same_as(&store));
    // a merge that fails leaves the replica as it was
    let mut failed = store.copy();
    let orphan = vec![Change::ItemChanged(Item::File(file("x", "nowhere")))];
    assert!(database::merge_changes(&mut failed, "D", orphan, "c9").is_err());
    assert!(failed.same_as(&store));
}
