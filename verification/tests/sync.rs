use bernard::database::{self, Store};
use bernard::fetch::{self, Change, Item, PartialDrive};
use bernard::model::{ChangedFile, ChangedPath, File, Folder, InnerPath, Path};
use bernard::{Account, Bernard, Error, ErrorKind, Remote, SyncKind, SyncStep, Synced};

fn account() -> Account {
    Account { client_email: "sa@example.com".to_string(), private_key: "SECRET-REDACTED".to_string() }
}

fn bernard() -> Bernard {
    Bernard::builder("bernard.db", account()).build(Store::new())
}

fn folder(id: &str, parent: &str) -> Folder {
    Folder {
        id: id.to_string(),
        drive_id: "D".to_string(),
        name: id.to_string(),
        trashed: false,
        parent: Some(parent.to_string()),
    }
}

fn file(id: &str, parent: &str) -> File {
    File {
        id: id.to_string(),
        drive_id: "D".to_string(),
        name: id.to_string(),
        trashed: false,
        parent: parent.to_string(),
        md5: "0cc175b9c0f1b6a831c399e269772661".to_string(),
        size: 1,
    }
}

fn listing(page_token: &str, name: &str, items: Vec<Item>) -> Remote {
    Remote::Listing { page_token: page_token.to_string(), name: name.to_string(), items }
}

fn changes(changes: Vec<Change>, new_page_token: &str) -> Remote {
    Remote::Changes { changes, new_page_token: new_page_token.to_string() }
}

fn failure(r: Result<Synced, Error>) -> Error {
    match r {
        Ok(out) => panic!("the synchronisation ended as {:?}", out.kind),
        Err(e) => e,
    }
}

fn inner(path: ChangedPath) -> (bool, bool, InnerPath) {
    match path {
        ChangedPath::Created(Path::Folder(i)) => (false, true, i),
        ChangedPath::Created(Path::File(i)) => (false, false, i),
        ChangedPath::Deleted(Path::Folder(i)) => (true, true, i),
        ChangedPath::Deleted(Path::File(i)) => (true, false, i),
    }
}

fn text_of(path: Option<Path>) -> String {
    InnerPath::from(path.unwrap()).path
}

#[test]
fn full_sync_loads_the_tree_and_logs_nothing() {
    let mut b = bernard();
    assert!(matches!(b.plan("D"), SyncStep::FetchListing));
    let items = vec![Item::File(file("doc", "sub")), Item::Folder(folder("sub", "D"))];
    let r = b.sync_drive("D", listing("c1", "My Drive", items)).unwrap();
    assert_eq!(r.kind, SyncKind::Full);
    assert!(r.skipped.is_empty());
    assert!(b.get_changed_paths("D").is_empty());
    assert!(b.get_changed_folders("D").is_empty());
    assert!(b.get_changed_files("D").is_empty());
    assert_eq!(text_of(b.store().file_path("D", "doc")), "My Drive/sub/doc");
    assert_eq!(text_of(b.store().folder_path("D", "sub")), "My Drive/sub");
    assert_eq!(text_of(b.store().folder_path("D", "D")), "My Drive");
    assert!(b.store().file_path("D", "sub").is_none());
    assert!(b.store().folder_path("D", "doc").is_none());
    assert_eq!(b.get_drive("D").unwrap().page_token, "c1");
}

#[test]
fn partial_sync_removes_a_file_and_reports_it() {
    let mut b = bernard();
    b.sync_drive("D", listing("c1", "D", vec![Item::File(file("f1", "D"))])).unwrap();
    match b.plan("D") {
        SyncStep::FetchChanges { page_token } => assert_eq!(page_token, "c1"),
        SyncStep::FetchListing => panic!("the drive is there"),
    }
    let r = b.sync_drive("D", changes(vec![Change::ItemRemoved("f1".to_string())], "c2")).unwrap();
    assert_eq!(r.kind, SyncKind::Partial);
    assert!(r.skipped.is_empty());
    let changed = b.get_changed_files("D");
    assert_eq!(changed.len(), 1);
    assert!(matches!(&changed[0], ChangedFile::Deleted(f) if f.id == "f1"));
    assert!(b.store().files("D").is_empty());
    assert_eq!(b.get_drive("D").unwrap().page_token, "c2");
    let paths = b.changes("D").paths();
    assert_eq!(paths.len(), 1);
    let (deleted, is_folder, path) = inner(b.get_changed_paths("D").remove(0));
    assert!(deleted && !is_folder);
    assert_eq!(path.id, "f1");
    assert_eq!(path.path, "D/f1");
    assert_eq!(b.changes("D").files().len(), 1);
    assert!(b.changes("D").folders().is_empty());
}

#[test]
fn partial_sync_with_the_same_cursor_writes_nothing() {
    let mut b = bernard();
    b.sync_drive("D", listing("c1", "D", vec![Item::File(file("f1", "D"))])).unwrap();
    b.sync_drive("D", changes(vec![Change::ItemRemoved("f1".to_string())], "c2")).unwrap();
    assert_eq!(b.get_changed_files("D").len(), 1);
    // the feed hands changes out although its cursor has not moved: none is merged
    let stale = vec![Change::ItemChanged(Item::File(file("f2", "D")))];
    let r = b.sync_drive("D", changes(stale, "c2")).unwrap();
    assert_eq!(r.kind, SyncKind::Partial);
    assert!(b.store().files("D").is_empty());
    assert!(b.get_changed_files("D").is_empty());
    assert!(b.get_changed_paths("D").is_empty());
    assert_eq!(b.get_drive("D").unwrap().page_token, "c2");
}

#[test]
fn a_renamed_drive_leads_every_path() {
    let mut b = bernard();
    let items = vec![Item::File(file("doc", "sub")), Item::Folder(folder("sub", "D"))];
    b.sync_drive("D", listing("c1", "Old", items)).unwrap();
    assert_eq!(text_of(b.store().file_path("D", "doc")), "Old/sub/doc");
    let rename = Change::DriveChanged(PartialDrive { id: "D".to_string(), name: "New".to_string() });
    b.sync_drive("D", changes(vec![rename], "c2")).unwrap();
    assert_eq!(text_of(b.store().file_path("D", "doc")), "New/sub/doc");
    assert_eq!(text_of(b.store().folder_path("D", "sub")), "New/sub");
    assert_eq!(text_of(b.store().folder_path("D", "D")), "New");
    let pairs = b.get_changed_folders_paths("D");
    assert_eq!(pairs.len(), 1);
    assert_eq!(pairs[0].1, "New");
}

#[test]
fn removed_entities_keep_their_last_known_path() {
    let mut b = bernard();
    let items = vec![
        Item::File(file("doc", "deep")),
        Item::Folder(folder("deep", "sub")),
        Item::Folder(folder("sub", "D")),
    ];
    b.sync_drive("D", listing("c1", "Drive", items)).unwrap();
    let batch = vec![
        Change::ItemRemoved("sub".to_string()),
        Change::DriveChanged(PartialDrive { id: "D".to_string(), name: "Now".to_string() }),
        Change::ItemChanged(Item::File(file("kept", "D"))),
    ];
    b.sync_drive("D", changes(batch, "c2")).unwrap();
    let mut texts: Vec<(bool, bool, String)> = b
        .get_changed_paths("D")
        .into_iter()
        .map(|p| {
            let (deleted, is_folder, i) = inner(p);
            (deleted, is_folder, i.path)
        })
        .collect();
    texts.sort();
    assert_eq!(
        texts,
        vec![
            (false, false, "Now/kept".to_string()),
            (false, true, "Now".to_string()),
            (true, false, "Now/sub/deep/doc".to_string()),
            (true, true, "Now/sub".to_string()),
            (true, true, "Now/sub/deep".to_string()),
        ]
    );
    let files = b.get_changed_files_paths("D");
    assert_eq!(files.len(), 2);
    assert!(matches!(&files[0].0, ChangedFile::Deleted(f) if f.id == "doc"));
    assert_eq!(files[0].1, "Now/sub/deep/doc");
    assert!(matches!(&files[1].0, ChangedFile::Created(f) if f.id == "kept"));
}

#[test]
fn a_partial_change_list_is_told_apart_and_changes_nothing() {
    let mut b = bernard();
    b.sync_drive("D", listing("c1", "D", vec![])).unwrap();
    let batch = vec![
        Change::ItemChanged(Item::Folder(folder("a", "D"))),
        Change::ItemChanged(Item::File(file("f", "deeply-nested-not-yet-seen"))),
    ];
    let e = failure(b.sync_drive("D", changes(batch, "c2")));
    assert!(e.is_partial_change_list());
    assert_eq!(e.kind(), ErrorKind::PartialChangeList);
    assert_eq!(e, Error::PartialChangeList { source: database::Error::DataIntegrityError });
    assert_eq!(e.message(), "Received a partial change list from Google");
    assert_eq!(b.store().folders("D").len(), 1);
    assert_eq!(b.get_drive("D").unwrap().page_token, "c1");
    assert!(b.get_changed_folders("D").is_empty());
}

#[test]
fn what_does_not_fit_the_replica_fails_as_storage() {
    let mut b = bernard();
    let e = failure(b.sync_drive("D", changes(vec![], "c2")));
    assert_eq!(e.kind(), ErrorKind::Database);
    assert!(!e.is_partial_change_list());
    b.sync_drive("D", listing("c1", "D", vec![])).unwrap();
    let e = failure(b.sync_drive("D", listing("c1", "D", vec![])));
    assert_eq!(e, Error::Database { source: database::Error::UnknownError });
    let e = b.add_drive("D", "D", "c1", vec![]).err().unwrap();
    assert_eq!(e.kind(), ErrorKind::Database);
    let twice = vec![Item::Folder(folder("a", "D")), Item::Folder(folder("a", "D"))];
    let e = failure(b.sync_drive("E", listing("c1", "E", twice)));
    assert_eq!(e.kind(), ErrorKind::Database);
    assert!(b.get_drive("E").is_none());
}

#[test]
fn errors_convert_by_their_source() {
    let e: Error = database::Error::DataIntegrityError.into();
    assert_eq!(e.kind(), ErrorKind::PartialChangeList);
    let e: Error = database::Error::UnknownError.into();
    assert_eq!(e.kind(), ErrorKind::Database);
    let e: Error = database::Error::ConnectionError.into();
    assert_eq!(e.kind(), ErrorKind::Database);
    let e: Error = database::Error::MigrationError.into();
    assert_eq!(e.kind(), ErrorKind::Database);
    assert_eq!(e.message(), "Database");
    let e: Error = fetch::Error::DriveNotFound.into();
    assert_eq!(e.kind(), ErrorKind::Network);
    assert_eq!(e, Error::Network { source: fetch::Error::DriveNotFound });
    assert_eq!(e.message(), "Network");
    let e = Error::WhereIsJWK { file_name: "account.json".to_string() };
    assert_eq!(e.kind(), ErrorKind::WhereIsJWK);
    assert_eq!(e.message(), "Cannot read the Service Account JWK file");
    let e = Error::InvalidJWK { file_name: "account.json".to_string() };
    assert_eq!(e.kind(), ErrorKind::InvalidJWK);
    assert_eq!(e.message(), "Invalid Service Account JWK file");
}

#[test]
fn remove_and_add_reset_a_drive() {
    let mut b = bernard();
    b.sync_drive("D", listing("c1", "D", vec![Item::File(file("f1", "D"))])).unwrap();
    b.remove_drive("D");
    assert!(b.get_drive("D").is_none());
    assert!(matches!(b.plan("D"), SyncStep::FetchListing));
    let skipped = b.add_drive("D", "D", "c5", vec![Item::File(file("f2", "gone"))]).unwrap();
    assert_eq!(skipped.len(), 1);
    assert_eq!(b.get_drive("D").unwrap().page_token, "c5");
    let store = b.close();
    assert!(store.files("D").is_empty());
}

#[test]
fn a_builder_keeps_path_and_proxy() {
    let builder = Bernard::builder("some.db", account()).proxy("http://127.0.0.1:8888");
    assert_eq!(builder.database_path, "some.db");
    assert_eq!(builder.fetch.proxy.as_deref(), Some("http://127.0.0.1:8888"));
    let mut b = builder.build(Store::new());
    assert_eq!(b.fetcher().proxy().as_deref(), Some("http://127.0.0.1:8888"));
}

#[test]
fn full_sync_hands_back_what_it_left_out() {
    let mut b = bernard();
    let items = vec![
        Item::File(file("stray", "nowhere")),
        Item::Folder(folder("sub", "D")),
        Item::Folder(folder("lost", "gone")),
    ];
    let r = b.sync_drive("D", listing("c1", "Drive", items)).unwrap();
    assert_eq!(r.kind, SyncKind::Full);
    let ids: Vec<&str> = r.skipped.iter().map(|i| i.id()).collect();
    assert_eq!(ids, vec!["stray", "lost"]);
    assert_eq!(b.store().folders("D").len(), 2);
    assert!(b.get_changed_paths("D").is_empty());
}

#[test]
fn a_no_op_synchronisation_leaves_nothing_to_write() {
    let mut b = bernard();
    b.sync_drive("D", listing("c1", "D", vec![Item::File(file("f1", "D"))])).unwrap();
    let stored = b.store().copy();
    let stale = vec![Change::ItemRemoved("f1".to_string())];
    let r = b.sync_drive("D", changes(stale, "c1")).unwrap();
    assert_eq!(r.kind, SyncKind::Partial);
    assert!(b.store().same_as(&stored));
    // the account and the proxy are as they were
    assert_eq!(b.fetcher().account().client_email, "sa@example.com");
    assert!(b.fetcher().proxy().is_none());
    b.sync_drive("D", changes(vec![Change::ItemRemoved("f1".to_string())], "c2")).unwrap();
    assert!(!b.store().same_as(&stored));
}
