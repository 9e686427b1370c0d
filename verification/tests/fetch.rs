use bernard::fetch::changes::{self, ChangesPager};
use bernard::fetch::content::{self, ListingPager};
use bernard::fetch::{
    check_status, decode_changes, decode_items, from_vec, to_backoff_error, BackoffError, Change,
    ChangeRecord, DecodeError, Error, Fetcher, Item, ItemRecord, PartialDrive,
};
use bernard::Account;

fn record(id: &str, md5: Option<&str>, size: Option<&str>, parents: &[&str]) -> ItemRecord {
    ItemRecord {
        id: id.to_string(),
        drive_id: "D".to_string(),
        md5_checksum: md5.map(|s| s.to_string()),
        name: format!("name of {}", id),
        parents: parents.iter().map(|p| p.to_string()).collect(),
        size: size.map(|s| s.to_string()),
        trashed: true,
    }
}

fn change(
    removed: bool,
    drive: Option<PartialDrive>,
    drive_id: Option<&str>,
    item: Option<ItemRecord>,
    item_id: Option<&str>,
) -> ChangeRecord {
    ChangeRecord {
        item_id: item_id.map(|s| s.to_string()),
        item,
        drive_id: drive_id.map(|s| s.to_string()),
        drive,
        removed,
    }
}

fn drive() -> PartialDrive {
    PartialDrive { id: "D".to_string(), name: "New".to_string() }
}

fn fetcher() -> Fetcher {
    Fetcher::new(Account {
        client_email: "sa@example.iam.gserviceaccount.com".to_string(),
        private_key: "SECRET-REDACTED".to_string(),
    })
}

#[test]
fn a_record_with_hash_size_and_parent_is_a_file_with_these_fields() {
    let r = record("f", Some("abc"), Some("1234"), &["p", "q"]);
    match Item::deserialize(&r) {
        Ok(Item::File(f)) => {
            assert_eq!(f.id, "f");
            assert_eq!(f.drive_id, "D");
            assert_eq!(f.name, "name of f");
            assert!(f.trashed);
            assert_eq!(f.parent, "p");
            assert_eq!(f.md5, "abc");
            assert_eq!(f.size, 1234);
        }
        other => panic!("expected a file, got {:?}", other),
    }
}

#[test]
fn a_record_without_hash_or_size_or_parent_is_a_folder() {
    for r in [
        record("a", None, None, &["p"]),
        record("b", None, None, &[]),
        record("c", Some("abc"), None, &["p"]),
        record("d", None, Some("12"), &["p"]),
        record("e", Some("abc"), Some("12"), &[]),
        record("g", Some("abc"), Some("not a number"), &[]),
    ] {
        let expected_parent = r.parents.first().cloned();
        match Item::deserialize(&r) {
            Ok(Item::Folder(f)) => {
                assert_eq!(f.id, r.id);
                assert_eq!(f.drive_id, "D");
                assert_eq!(f.name, r.name);
                assert!(f.trashed);
                assert_eq!(f.parent, expected_parent);
            }
            other => panic!("expected a folder, got {:?}", other),
        }
    }
}

#[test]
fn a_file_whose_size_is_no_number_is_refused() {
    for size in ["", "12a", " 12", "12 ", "+", "-", "9223372036854775808", "1.5", "١٢"] {
        let r = record("f", Some("abc"), Some(size), &["p"]);
        assert_eq!(Item::deserialize(&r).err(), Some(DecodeError::InvalidSize), "size {:?}", size);
    }
    for (size, n) in [
        ("0", 0),
        ("007", 7),
        ("+5", 5),
        ("-5", -5),
        ("9223372036854775807", i64::MAX),
        ("-9223372036854775808", i64::MIN),
    ] {
        let r = record("f", Some("abc"), Some(size), &["p"]);
        match Item::deserialize(&r) {
            Ok(Item::File(f)) => assert_eq!(f.size, n),
            other => panic!("size {:?} gave {:?}", size, other),
        }
    }
}

#[test]
fn from_vec_takes_the_first_parent() {
    assert_eq!(from_vec(&vec![]), None);
    assert_eq!(from_vec(&vec!["a".to_string(), "b".to_string()]), Some("a".to_string()));
}

#[test]
fn the_four_shapes_of_a_change_decode_to_their_variants() {
    let c = Change::deserialize(&change(true, None, Some("D"), None, None)).unwrap();
    assert!(matches!(c, Change::DriveRemoved(id) if id == "D"));
    let c = Change::deserialize(&change(false, Some(drive()), Some("D"), None, None)).unwrap();
    assert!(matches!(c, Change::DriveChanged(d) if d.id == "D" && d.name == "New"));
    let c = Change::deserialize(&change(false, Some(drive()), None, None, None)).unwrap();
    assert!(matches!(c, Change::DriveChanged(_)));
    let c = Change::deserialize(&change(true, None, None, None, Some("f1"))).unwrap();
    assert!(matches!(c, Change::ItemRemoved(id) if id == "f1"));
    let item = record("f1", Some("abc"), Some("3"), &["D"]);
    let c = Change::deserialize(&change(false, None, None, Some(item), Some("f1"))).unwrap();
    assert!(matches!(c, Change::ItemChanged(Item::File(f)) if f.id == "f1" && f.size == 3));
    let item = record("d1", None, None, &["D"]);
    let c = Change::deserialize(&change(false, None, None, Some(item), None)).unwrap();
    assert!(matches!(c, Change::ItemChanged(Item::Folder(f)) if f.id == "d1"));
}

#[test]
fn any_other_shape_of_a_change_is_refused() {
    let item = || record("f1", None, None, &["D"]);
    let refused = [
        change(true, Some(drive()), None, Some(item()), None),
        change(true, None, None, None, None),
        change(false, None, None, None, None),
        change(true, Some(drive()), Some("D"), None, None),
        change(true, None, Some("D"), None, Some("f1")),
        change(true, None, Some("D"), Some(item()), None),
        change(false, Some(drive()), None, Some(item()), None),
        change(false, Some(drive()), None, None, Some("f1")),
        change(false, None, Some("D"), Some(item()), None),
        change(false, None, Some("D"), None, None),
        change(false, None, None, None, Some("f1")),
        change(true, None, None, Some(item()), Some("f1")),
    ];
    for r in refused.iter() {
        assert_eq!(
            Change::deserialize(r).err(),
            Some(DecodeError::UnknownChangeVariant),
            "{:?}",
            r
        );
    }
}

#[test]
fn an_item_that_does_not_decode_fails_its_change() {
    let bad = record("f1", Some("abc"), Some("x"), &["D"]);
    let r = change(false, None, None, Some(bad), None);
    assert_eq!(Change::deserialize(&r).err(), Some(DecodeError::InvalidSize));
    let bad = record("f1", Some("abc"), Some("x"), &["D"]);
    let r = change(true, Some(drive()), None, Some(bad), None);
    assert_eq!(Change::deserialize(&r).err(), Some(DecodeError::InvalidSize));
}

#[test]
fn a_batch_decodes_as_a_whole_or_not_at_all() {
    let good = vec![
        change(true, None, None, None, Some("a")),
        change(true, None, None, None, Some("b")),
    ];
    let decoded = decode_changes(&good).unwrap();
    assert_eq!(decoded.len(), 2);
    assert!(matches!(&decoded[1], Change::ItemRemoved(id) if id == "b"));
    let bad = vec![
        change(true, None, None, None, Some("a")),
        change(true, None, None, None, None),
        change(false, None, None, Some(record("f", Some("m"), Some("x"), &["p"])), None),
    ];
    assert_eq!(decode_changes(&bad).err(), Some(DecodeError::UnknownChangeVariant));
    let items = vec![record("a", None, None, &["D"]), record("f", Some("m"), Some("x"), &["p"])];
    assert_eq!(decode_items(&items).err(), Some(DecodeError::InvalidSize));
    assert_eq!(decode_items(&items[..1].iter().map(|r| record(&r.id, None, None, &["D"])).collect()).unwrap().len(), 1);
    assert!(decode_items(&vec![]).unwrap().is_empty());
}

#[test]
fn a_status_is_sorted_into_success_and_failures() {
    assert_eq!(check_status(200), Ok(()));
    assert_eq!(check_status(204), Ok(()));
    assert_eq!(check_status(299), Ok(()));
    assert_eq!(check_status(401), Err(Error::InvalidCredentials));
    assert_eq!(check_status(403), Err(Error::ApiNotEnabled));
    assert_eq!(check_status(404), Err(Error::DriveNotFound));
    assert_eq!(check_status(500), Err(Error::ServerError { status: 500 }));
    assert_eq!(check_status(503), Err(Error::ServerError { status: 503 }));
    assert_eq!(check_status(599), Err(Error::ServerError { status: 599 }));
    assert_eq!(check_status(600), Err(Error::UnknownStatus { status: 600 }));
    assert_eq!(check_status(400), Err(Error::UnknownStatus { status: 400 }));
    assert_eq!(check_status(429), Err(Error::UnknownStatus { status: 429 }));
    assert_eq!(check_status(302), Err(Error::UnknownStatus { status: 302 }));
    assert_eq!(check_status(199), Err(Error::UnknownStatus { status: 199 }));
}

#[test]
fn only_connection_and_server_failures_are_retried() {
    assert_eq!(
        to_backoff_error(Error::ConnectionError),
        BackoffError::Transient(Error::ConnectionError)
    );
    assert_eq!(
        to_backoff_error(Error::ServerError { status: 502 }),
        BackoffError::Transient(Error::ServerError { status: 502 })
    );
    for e in [
        Error::ApiNotEnabled,
        Error::DriveNotFound,
        Error::DeserialisationError,
        Error::InvalidCredentials,
        Error::UnknownStatus { status: 418 },
    ] {
        let kept = match &e {
            Error::UnknownStatus { status } => Error::UnknownStatus { status: *status },
            Error::ApiNotEnabled => Error::ApiNotEnabled,
            Error::DriveNotFound => Error::DriveNotFound,
            Error::DeserialisationError => Error::DeserialisationError,
            _ => Error::InvalidCredentials,
        };
        assert_eq!(to_backoff_error(e), BackoffError::Permanent(kept));
    }
}

#[test]
fn the_change_feed_is_read_until_a_new_start_cursor_comes() {
    let pager = fetcher().changes("D", "c1");
    let q = pager.query();
    assert_eq!(q.drive_id, "D");
    assert_eq!(q.page_token, "c1");
    assert_eq!(q.page_size, 1000);
    assert!(q.all_drives && q.supports_all_drives);
    assert_eq!(q.fields, changes::FIELDS);
    let page = changes::Response {
        changes: vec![change(true, None, None, None, Some("a"))],
        next_page_token: Some("p2".to_string()),
        new_start_page_token: None,
    };
    let pager = match pager.absorb(&page).unwrap() {
        changes::Paged::More(p) => p,
        changes::Paged::Done(..) => panic!("the feed has more"),
    };
    assert_eq!(pager.query().page_token, "p2");
    let page = changes::Response {
        changes: vec![
            change(true, None, None, None, Some("b")),
            change(true, None, Some("D"), None, None),
        ],
        next_page_token: Some("ignored".to_string()),
        new_start_page_token: Some("c2".to_string()),
    };
    match pager.absorb(&page).unwrap() {
        changes::Paged::Done(all, cursor) => {
            assert_eq!(cursor, "c2");
            assert_eq!(all.len(), 3);
            assert!(matches!(&all[0], Change::ItemRemoved(id) if id == "a"));
            assert!(matches!(&all[1], Change::ItemRemoved(id) if id == "b"));
            assert!(matches!(&all[2], Change::DriveRemoved(id) if id == "D"));
        }
        changes::Paged::More(_) => panic!("the feed is drained"),
    }
}

#[test]
fn a_page_that_does_not_decode_fails_the_reading() {
    let page = changes::Response {
        changes: vec![change(true, None, None, None, None)],
        next_page_token: None,
        new_start_page_token: Some("c2".to_string()),
    };
    let r = ChangesPager::new("D", "c1").absorb(&page);
    assert!(matches!(r, Err(Error::DeserialisationError)));
    let page = content::Response {
        items: vec![record("f", Some("m"), Some("x"), &["p"])],
        next_page_token: None,
    };
    let r = ListingPager::new("D").absorb(&page);
    assert!(matches!(r, Err(Error::DeserialisationError)));
}

#[test]
fn the_listing_is_read_until_no_next_cursor_comes() {
    let pager = fetcher().all_files("D");
    let q = pager.query();
    assert_eq!(q.drive_id, "D");
    assert_eq!(q.page_token, None);
    assert_eq!(q.page_size, 1000);
    assert_eq!(q.corpora, "drive");
    assert_eq!(q.fields, content::FIELDS);
    assert!(q.all_drives && q.supports_all_drives);
    let page = content::Response {
        items: vec![record("a", None, None, &["D"])],
        next_page_token: Some("p2".to_string()),
    };
    let pager = match pager.absorb(&page).unwrap() {
        content::Paged::More(p) => p,
        content::Paged::Done(_) => panic!("the listing has more"),
    };
    assert_eq!(pager.query().page_token, Some("p2".to_string()));
    let page = content::Response {
        items: vec![record("f", Some("m"), Some("1"), &["a"])],
        next_page_token: None,
    };
    match pager.absorb(&page).unwrap() {
        content::Paged::Done(items) => {
            assert_eq!(items.len(), 2);
            assert_eq!(items[0].id(), "a");
            assert_eq!(items[1].id(), "f");
            assert_eq!(items[1].drive_id(), "D");
        }
        content::Paged::More(_) => panic!("the listing is complete"),
    }
}

#[test]
fn single_requests_name_what_they_ask_for() {
    let f = fetcher();
    let r = f.drive_name("0A1xUk9PVA");
    assert_eq!(r.url, "https://www.googleapis.com/drive/v3/drives/0A1xUk9PVA");
    assert_eq!(r.query.fields, "name");
    let q = f.start_page_token("0A1xUk9PVA");
    assert_eq!(q.drive_id, "0A1xUk9PVA");
    assert_eq!(q.fields, "startPageToken");
    assert!(q.supports_all_drives);
}

#[test]
fn item_gives_its_id_and_drive() {
    let item = Item::deserialize(&record("x", None, None, &[])).unwrap();
    assert_eq!(item.id(), "x");
    assert_eq!(item.drive_id(), "D");
    assert_eq!(item.into_id(), "x");
}

fn more(next: &str) -> changes::Response {
    changes::Response {
        changes: vec![],
        next_page_token: Some(next.to_string()),
        new_start_page_token: None,
    }
}

#[test]
fn a_page_of_the_feed_that_leads_nowhere_fails_the_reading() {
    // no cursor at all: the same page would be asked for again
    let page = changes::Response { changes: vec![], next_page_token: None, new_start_page_token: None };
    let r = ChangesPager::new("D", "c1").absorb(&page);
    assert!(matches!(r, Err(Error::DeserialisationError)));
    // the cursor that was just asked for
    let r = ChangesPager::new("D", "c1").absorb(&more("c1"));
    assert!(matches!(r, Err(Error::DeserialisationError)));
    // a cursor that was asked for two pages ago
    let pager = match ChangesPager::new("D", "c1").absorb(&more("p2")).unwrap() {
        changes::Paged::More(p) => p,
        changes::Paged::Done(..) => panic!("the feed has more"),
    };
    let pager = match pager.absorb(&more("p3")).unwrap() {
        changes::Paged::More(p) => p,
        changes::Paged::Done(..) => panic!("the feed has more"),
    };
    assert_eq!(pager.query().page_token, "p3");
    let r = pager.absorb(&more("p2"));
    assert!(matches!(r, Err(Error::DeserialisationError)));
    // a new start cursor ends the feed whatever it is
    let page = changes::Response {
        changes: vec![],
        next_page_token: Some("c1".to_string()),
        new_start_page_token: Some("c1".to_string()),
    };
    match ChangesPager::new("D", "c1").absorb(&page).unwrap() {
        changes::Paged::Done(all, cursor) => {
            assert!(all.is_empty());
            assert_eq!(cursor, "c1");
        }
        changes::Paged::More(_) => panic!("the feed is drained"),
    }
}

#[test]
fn a_page_of_the_listing_that_leads_back_fails_the_reading() {
    let next = |token: &str| content::Response {
        items: vec![],
        next_page_token: Some(token.to_string()),
    };
    let pager = match ListingPager::new("D").absorb(&next("p2")).unwrap() {
        content::Paged::More(p) => p,
        content::Paged::Done(_) => panic!("the listing has more"),
    };
    let r = pager.absorb(&next("p2"));
    assert!(matches!(r, Err(Error::DeserialisationError)));
    let pager = match ListingPager::new("D").absorb(&next("p2")).unwrap() {
        content::Paged::More(p) => p,
        content::Paged::Done(_) => panic!("the listing has more"),
    };
    let pager = match pager.absorb(&next("p3")).unwrap() {
        content::Paged::More(p) => p,
        content::Paged::Done(_) => panic!("the listing has more"),
    };
    assert_eq!(pager.query().page_token, Some("p3".to_string()));
    assert!(matches!(pager.absorb(&next("p2")), Err(Error::DeserialisationError)));
}
