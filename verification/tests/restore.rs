use bernard::database::{self, Error, Store};
use bernard::fetch::{Change, Item};
use bernard::model::{ChangedFile, ChangedFolder, Drive, File, Folder};

fn drive(id: &str) -> Drive {
    Drive { id: id.to_string(), page_token: "c1".to_string() }
}

fn folder(id: &str, parent: Option<&str>) -> Folder {
    Folder {
        id: id.to_string(),
        drive_id: "D".to_string(),
        name: format!("n-{}", id),
        trashed: false,
        parent: parent.map(|p| p.to_string()),
    }
}

fn file(id: &str, parent: &str) -> File {
    File {
        id: id.to_string(),
        drive_id: "D".to_string(),
        name: format!("n-{}", id),
        trashed: false,
        parent: parent.to_string(),
        md5: "9e107d9d372bb6826bd81d3542a419d6".to_string(),
        size: 43,
    }
}

fn tree() -> Vec<Folder> {
    vec![folder("b", Some("a")), folder("D", None), folder("a", Some("D"))]
}

fn refused(r: Result<Store, Error>) -> bool {
    matches!(r, Err(Error::DataIntegrityError))
}

#[test]
fn a_well_formed_replica_is_restored_as_it_is() {
    let store = Store::restore(
        vec![drive("D"), drive("E")],
        tree(),
        vec![file("f", "b")],
        vec![ChangedFolder::Created(folder("a", Some("D"))), ChangedFolder::Deleted(folder("z", Some("a")))],
        vec![ChangedFile::Deleted(file("g", "z")), ChangedFile::Created(file("f", "b"))],
    )
    .unwrap();
    let ids: Vec<String> = store.folders("D").into_iter().map(|f| f.id).collect();
    assert_eq!(ids, vec!["b", "D", "a"]);
    assert_eq!(store.drives().len(), 2);
    assert_eq!(store.files("D").len(), 1);
    assert_eq!(database::get_changed_folders(&store, "D").len(), 2);
    let paths = database::get_changed_files_paths(&store, "D");
    let texts: Vec<String> = paths
        .into_iter()
        .map(|(_, p)| bernard::InnerPath::from(p).path)
        .collect();
    assert_eq!(texts, vec!["n-D/n-a/n-z/n-g", "n-D/n-a/n-b/n-f"]);
    assert!(Store::restore(vec![], vec![], vec![], vec![], vec![]).is_ok());
}

#[test]
fn what_is_restored_can_be_merged_into() {
    let mut store = Store::restore(vec![drive("D")], tree(), vec![file("f", "b")], vec![], vec![]).unwrap();
    database::merge_changes(&mut store, "D", vec![Change::ItemRemoved("a".to_string())], "c2").unwrap();
    assert_eq!(store.folders("D").len(), 1);
    assert!(store.files("D").is_empty());
    let skipped = database::add_drive(&mut store, "E", "Else", "e1", vec![Item::File(file("f", "D"))]).unwrap();
    assert_eq!(skipped.len(), 1);
}

#[test]
fn tables_with_a_key_twice_are_refused() {
    assert!(refused(Store::restore(vec![drive("D"), drive("D")], vec![], vec![], vec![], vec![])));
    let mut twice = tree();
    twice.push(folder("a", Some("b")));
    assert!(refused(Store::restore(vec![drive("D")], twice, vec![], vec![], vec![])));
    let files = vec![file("f", "a"), file("f", "b")];
    assert!(refused(Store::restore(vec![drive("D")], tree(), files, vec![], vec![])));
    let log = vec![ChangedFolder::Deleted(folder("z", Some("a"))), ChangedFolder::Deleted(folder("z", Some("b")))];
    assert!(refused(Store::restore(vec![drive("D")], tree(), vec![], log, vec![])));
    let log = vec![ChangedFile::Deleted(file("g", "a")), ChangedFile::Deleted(file("g", "a"))];
    assert!(refused(Store::restore(vec![drive("D")], tree(), vec![], vec![], log)));
}

#[test]
fn rows_without_their_drive_or_parent_are_refused() {
    assert!(refused(Store::restore(vec![drive("E")], tree(), vec![], vec![], vec![])));
    let orphan = vec![folder("D", None), folder("b", Some("a"))];
    assert!(refused(Store::restore(vec![drive("D")], orphan, vec![], vec![], vec![])));
    let files = vec![file("f", "nowhere")];
    assert!(refused(Store::restore(vec![drive("D")], tree(), files, vec![], vec![])));
}

#[test]
fn folders_in_a_circle_or_with_a_second_root_are_refused() {
    let circle = vec![folder("D", None), folder("a", Some("b")), folder("b", Some("a"))];
    assert!(refused(Store::restore(vec![drive("D")], circle, vec![], vec![], vec![])));
    let own = vec![folder("D", None), folder("a", Some("a"))];
    assert!(refused(Store::restore(vec![drive("D")], own, vec![], vec![], vec![])));
    let second = vec![folder("D", None), folder("a", None)];
    assert!(refused(Store::restore(vec![drive("D")], second, vec![], vec![], vec![])));
    let rooted_root = vec![folder("D", Some("D"))];
    assert!(refused(Store::restore(vec![drive("D")], rooted_root, vec![], vec![], vec![])));
}

#[test]
fn a_changelog_that_disagrees_with_the_tables_is_refused() {
    let stale = vec![ChangedFolder::Created(folder("gone", Some("D")))];
    assert!(refused(Store::restore(vec![drive("D")], tree(), vec![], stale, vec![])));
    let mut other = folder("a", Some("D"));
    other.name = "renamed".to_string();
    let differs = vec![ChangedFolder::Created(other)];
    assert!(refused(Store::restore(vec![drive("D")], tree(), vec![], differs, vec![])));
    let alive = vec![ChangedFolder::Deleted(folder("a", Some("D")))];
    assert!(refused(Store::restore(vec![drive("D")], tree(), vec![], alive, vec![])));
    let alive = vec![ChangedFile::Deleted(file("f", "b"))];
    assert!(refused(Store::restore(vec![drive("D")], tree(), vec![file("f", "b")], vec![], alive)));
    let mut other = file("f", "b");
    other.size = 44;
    let differs = vec![ChangedFile::Created(other)];
    assert!(refused(Store::restore(vec![drive("D")], tree(), vec![file("f", "b")], vec![], differs)));
}

#[test]
fn a_changelog_that_cannot_be_traced_is_refused() {
    let lost = vec![ChangedFolder::Deleted(folder("z", Some("never-seen")))];
    assert!(refused(Store::restore(vec![drive("D")], tree(), vec![], lost, vec![])));
    let circle = vec![
        ChangedFolder::Deleted(folder("y", Some("z"))),
        ChangedFolder::Deleted(folder("z", Some("y"))),
    ];
    assert!(refused(Store::restore(vec![drive("D")], tree(), vec![], circle, vec![])));
    let rootless = vec![ChangedFolder::Deleted(folder("z", None))];
    assert!(refused(Store::restore(vec![drive("D")], tree(), vec![], rootless, vec![])));
    let lost = vec![ChangedFile::Deleted(file("g", "never-seen"))];
    assert!(refused(Store::restore(vec![drive("D")], tree(), vec![], vec![], lost)));
    // a chain of removed folders, listed in any order, is traced
    let chain = vec![
        ChangedFolder::Deleted(folder("x", Some("y"))),
        ChangedFolder::Deleted(folder("z", Some("b"))),
        ChangedFolder::Deleted(folder("y", Some("z"))),
    ];
    let store = Store::restore(vec![drive("D")], tree(), vec![], chain, vec![]).unwrap();
    let paths = database::get_changed_folders_paths(&store, "D");
    let texts: Vec<String> = paths
        .into_iter()
        .map(|(_, p)| bernard::InnerPath::from(p).path)
        .collect();
    assert_eq!(
        texts,
        vec!["n-D/n-a/n-b/n-z/n-y/n-x", "n-D/n-a/n-b/n-z", "n-D/n-a/n-b/n-z/n-y"]
    );
    // the root itself may have been removed
    let all_gone = vec![
        ChangedFolder::Deleted(folder("a", Some("D"))),
        ChangedFolder::Deleted(folder("D", None)),
    ];
    let store = Store::restore(vec![drive("D")], vec![], vec![], all_gone, vec![]).unwrap();
    let paths = database::get_changed_paths(&store, "D");
    assert_eq!(paths.len(), 2);
}
