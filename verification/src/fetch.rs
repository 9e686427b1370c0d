//! What the remote change feed delivers, decoded into typed values.

pub mod auth;
pub mod changes;
pub mod content;
pub mod drive;
pub mod page_token;

use vstd::prelude::*;
use crate::model::folder::opt_view;
use crate::model::{File, FileView, Folder, FolderView};
use crate::text::{decimal_i64, parse_i64, strs};
use crate::fetch::auth::{AccessToken, Claims, RefreshToken, RefreshTokenView, Scope, ScopeView};
use crate::Account;

verus! {

/// A file or a folder, as the remote listing delivers it.
#[derive(Debug)]
pub enum Item {
    File(File),
    Folder(Folder),
}

/// The mathematical value of an [`Item`].
pub enum ItemView {
    File(FileView),
    Folder(FolderView),
}

impl ItemView {
    /// The id of the item.
    pub open spec fn id(self) -> Seq<char> {
        match self {
            ItemView::File(file) => file.id,
            ItemView::Folder(folder) => folder.id,
        }
    }

    /// The drive that the item says it belongs to.
    pub open spec fn drive_id(self) -> Seq<char> {
        match self {
            ItemView::File(file) => file.drive_id,
            ItemView::Folder(folder) => folder.drive_id,
        }
    }
}

impl View for Item {
    type V = ItemView;

    open spec fn view(&self) -> ItemView {
        match self {
            Item::File(file) => ItemView::File(file@),
            Item::Folder(folder) => ItemView::Folder(folder@),
        }
    }
}

impl Clone for Item {
    fn clone(&self) -> (r: Self)
        ensures
            r == *self,
    {
        match self {
            Item::File(file) => Item::File(file.clone()),
            Item::Folder(folder) => Item::Folder(folder.clone()),
        }
    }
}

impl Item {
    /// The drive that the item says it belongs to.
    pub fn drive_id<'a>(&'a self) -> (r: &'a str)
        ensures
            r@ == self@.drive_id(),
    {
        match self {
            Item::File(file) => file.drive_id.as_str(),
            Item::Folder(folder) => folder.drive_id.as_str(),
        }
    }

    /// The id of the item, taken out of it.
    pub fn into_id(self) -> (r: String)
        ensures
            r@ == self@.id(),
    {
        match self {
            Item::File(file) => file.id,
            Item::Folder(folder) => folder.id,
        }
    }

    /// The id of the item.
    pub fn id<'a>(&'a self) -> (r: &'a str)
        ensures
            r@ == self@.id(),
    {
        match self {
            Item::File(file) => file.id.as_str(),
            Item::Folder(folder) => folder.id.as_str(),
        }
    }
}

/// The new name of a drive.
#[derive(Debug)]
pub struct PartialDrive {
    pub id: String,
    pub name: String,
}

/// The mathematical value of a [`PartialDrive`].
pub struct PartialDriveView {
    pub id: Seq<char>,
    pub name: Seq<char>,
}

impl View for PartialDrive {
    type V = PartialDriveView;

    open spec fn view(&self) -> PartialDriveView {
        PartialDriveView { id: self.id@, name: self.name@ }
    }
}

impl Clone for PartialDrive {
    fn clone(&self) -> (r: Self)
        ensures
            r == *self,
    {
        PartialDrive { id: self.id.clone(), name: self.name.clone() }
    }
}

/// One entry of the remote change feed.
#[derive(Debug)]
pub enum Change {
    /// The drive was renamed.
    DriveChanged(PartialDrive),
    /// The drive was removed; the id is the drive's.
    DriveRemoved(String),
    /// An item was created or changed.
    ItemChanged(Item),
    /// The item with this id was removed.
    ItemRemoved(String),
}

/// The mathematical value of a [`Change`].
pub enum ChangeView {
    DriveChanged(PartialDriveView),
    DriveRemoved(Seq<char>),
    ItemChanged(ItemView),
    ItemRemoved(Seq<char>),
}

impl View for Change {
    type V = ChangeView;

    open spec fn view(&self) -> ChangeView {
        match self {
            Change::DriveChanged(drive) => ChangeView::DriveChanged(drive@),
            Change::DriveRemoved(id) => ChangeView::DriveRemoved(id@),
            Change::ItemChanged(item) => ChangeView::ItemChanged(item@),
            Change::ItemRemoved(id) => ChangeView::ItemRemoved(id@),
        }
    }
}

impl Clone for Change {
    fn clone(&self) -> (r: Self)
        ensures
            r == *self,
    {
        match self {
            Change::DriveChanged(drive) => Change::DriveChanged(drive.clone()),
            Change::DriveRemoved(id) => Change::DriveRemoved(id.clone()),
            Change::ItemChanged(item) => Change::ItemChanged(item.clone()),
            Change::ItemRemoved(id) => Change::ItemRemoved(id.clone()),
        }
    }
}

/// The values of a list of changes.
pub open spec fn changes_view(changes: Seq<Change>) -> Seq<ChangeView> {
    Seq::new(changes.len(), |i: int| changes[i]@)
}

/// The values of a list of items.
pub open spec fn items_view(items: Seq<Item>) -> Seq<ItemView> {
    Seq::new(items.len(), |i: int| items[i]@)
}

/// Why a request to the remote store failed.
#[derive(Debug, PartialEq, Eq, Structural)]
pub enum Error {
    /// The remote store answered 403: its interface is not enabled.
    ApiNotEnabled,
    /// The remote store answered 404: the credential does not see the drive.
    DriveNotFound,
    /// The remote store could not be reached.
    ConnectionError,
    /// The answer could not be read as the records that were asked for.
    DeserialisationError,
    /// The remote store answered 401: the credential is not accepted.
    InvalidCredentials,
    /// Any other failure status.
    UnknownStatus { status: u16 },
    /// The remote store answered with a status from 500 to 599.
    ServerError { status: u16 },
}

/// Whether a failure is worth another attempt.
#[derive(Debug, PartialEq, Eq, Structural)]
pub enum BackoffError {
    /// The failure may pass: try again after a delay.
    Transient(Error),
    /// The failure will not pass: give up at once.
    Permanent(Error),
}

/// Whether the failure may pass: a connection that failed and a server
/// error may, any other failure will not.
pub open spec fn is_transient(error: Error) -> bool {
    error is ConnectionError || error is ServerError
}

/// Sorts a failure into those that are retried and those that are not.
pub fn to_backoff_error(error: Error) -> (r: BackoffError)
    ensures
        is_transient(error) ==> r == BackoffError::Transient(error),
        !is_transient(error) ==> r == BackoffError::Permanent(error),
{
    match error {
        Error::ConnectionError => BackoffError::Transient(error),
        Error::ServerError { .. } => BackoffError::Transient(error),
        _ => BackoffError::Permanent(error),
    }
}

/// What a status of an answer means: `None` for success, from 200 to 299,
/// and the failure for any other status.
pub open spec fn status_error(status: u16) -> Option<Error> {
    if 200 <= status < 300 {
        None
    } else if 500 <= status < 600 {
        Some(Error::ServerError { status })
    } else if status == 404 {
        Some(Error::DriveNotFound)
    } else if status == 403 {
        Some(Error::ApiNotEnabled)
    } else if status == 401 {
        Some(Error::InvalidCredentials)
    } else {
        Some(Error::UnknownStatus { status })
    }
}

/// Sorts the status of an answer: `Ok` for success, the failure otherwise.
pub fn check_status(status: u16) -> (r: Result<(), Error>)
    ensures
        match status_error(status) {
            None => r is Ok,
            Some(e) => r == Err::<(), Error>(e),
        },
{
    if status >= 200 && status < 300 {
        return Ok(());
    }
    if status >= 500 && status < 600 {
        return Err(Error::ServerError { status });
    }
    let error = if status == 404 {
        Error::DriveNotFound
    } else if status == 403 {
        Error::ApiNotEnabled
    } else if status == 401 {
        Error::InvalidCredentials
    } else {
        Error::UnknownStatus { status }
    };
    Err(error)
}

/// Why a record could not be decoded.
#[derive(Debug, PartialEq, Eq, Structural)]
pub enum DecodeError {
    /// The size of a file is not a 64-bit signed integer written in decimal.
    InvalidSize,
    /// The fields of a change fit none of the four shapes of a change.
    UnknownChangeVariant,
}

/// An item as the wire delivers it, before it is known to be a file or a
/// folder.
#[derive(Debug)]
pub struct ItemRecord {
    pub id: String,
    pub drive_id: String,
    pub md5_checksum: Option<String>,
    pub name: String,
    pub parents: Vec<String>,
    pub size: Option<String>,
    pub trashed: bool,
}

/// The mathematical value of an [`ItemRecord`].
pub struct ItemRecordView {
    pub id: Seq<char>,
    pub drive_id: Seq<char>,
    pub md5_checksum: Option<Seq<char>>,
    pub name: Seq<char>,
    pub parents: Seq<Seq<char>>,
    pub size: Option<Seq<char>>,
    pub trashed: bool,
}

impl View for ItemRecord {
    type V = ItemRecordView;

    open spec fn view(&self) -> ItemRecordView {
        ItemRecordView {
            id: self.id@,
            drive_id: self.drive_id@,
            md5_checksum: opt_view(self.md5_checksum),
            name: self.name@,
            parents: strs(self.parents@),
            size: opt_view(self.size),
            trashed: self.trashed,
        }
    }
}

/// The first of the parents, if there is one.
pub open spec fn first_of(parents: Seq<Seq<char>>) -> Option<Seq<char>> {
    if parents.len() > 0 {
        Some(parents[0])
    } else {
        None
    }
}

/// The first of the parents, if there is one.
pub fn from_vec(parents: &Vec<String>) -> (r: Option<String>)
    ensures
        opt_view(r) == first_of(strs(parents@)),
{
    if parents.len() > 0 {
        Some(parents[0].clone())
    } else {
        None
    }
}

/// What a record decodes to. A record with a content hash, a size and a
/// parent is a file, and its size must be a number; any other record is a
/// folder, with the parent that it has, if any.
pub open spec fn decoded_item(r: ItemRecordView) -> Result<ItemView, DecodeError> {
    match (r.md5_checksum, r.size, first_of(r.parents)) {
        (Some(md5), Some(size), Some(parent)) => match decimal_i64(size) {
            Some(n) => Ok(
                ItemView::File(
                    FileView {
                        id: r.id,
                        drive_id: r.drive_id,
                        name: r.name,
                        trashed: r.trashed,
                        parent,
                        md5,
                        size: n,
                    },
                ),
            ),
            None => Err(DecodeError::InvalidSize),
        },
        (_, _, parent) => Ok(
            ItemView::Folder(
                FolderView {
                    id: r.id,
                    drive_id: r.drive_id,
                    name: r.name,
                    trashed: r.trashed,
                    parent,
                },
            ),
        ),
    }
}

impl Item {
    /// Decodes a record into a file or a folder. A record with a content
    /// hash, a size and a parent is a file with exactly these fields; it is
    /// refused where its size is not a number. Any other record is a folder.
    pub fn deserialize(record: &ItemRecord) -> (r: Result<Item, DecodeError>)
        ensures
            match decoded_item(record@) {
                Ok(item) => r matches Ok(it) && it@ == item,
                Err(e) => r == Err::<Item, DecodeError>(e),
            },
    {
        let parent = from_vec(&record.parents);
        match (&record.md5_checksum, &record.size, parent) {
            (Some(md5), Some(size), Some(parent)) => {
                match parse_i64(size.as_str()) {
                    Some(n) => Ok(
                        Item::File(
                            File {
                                id: record.id.clone(),
                                drive_id: record.drive_id.clone(),
                                md5: md5.clone(),
                                name: record.name.clone(),
                                parent,
                                size: n,
                                trashed: record.trashed,
                            },
                        ),
                    ),
                    None => Err(DecodeError::InvalidSize),
                }
            },
            (_, _, parent) => Ok(
                Item::Folder(
                    Folder {
                        id: record.id.clone(),
                        drive_id: record.drive_id.clone(),
                        name: record.name.clone(),
                        parent,
                        trashed: record.trashed,
                    },
                ),
            ),
        }
    }
}

/// A change as the wire delivers it: a flag and four optional fields.
#[derive(Debug)]
pub struct ChangeRecord {
    pub item_id: Option<String>,
    pub item: Option<ItemRecord>,
    pub drive_id: Option<String>,
    pub drive: Option<PartialDrive>,
    pub removed: bool,
}

/// The mathematical value of a [`ChangeRecord`].
pub struct ChangeRecordView {
    pub item_id: Option<Seq<char>>,
    pub item: Option<ItemRecordView>,
    pub drive_id: Option<Seq<char>>,
    pub drive: Option<PartialDriveView>,
    pub removed: bool,
}

impl View for ChangeRecord {
    type V = ChangeRecordView;

    open spec fn view(&self) -> ChangeRecordView {
        ChangeRecordView {
            item_id: opt_view(self.item_id),
            item: match self.item {
                Some(item) => Some(item@),
                None => None,
            },
            drive_id: opt_view(self.drive_id),
            drive: match self.drive {
                Some(drive) => Some(drive@),
                None => None,
            },
            removed: self.removed,
        }
    }
}

/// What a change record decodes to. An item in the record is decoded
/// first, and its failure is the failure of the change. Then exactly four
/// shapes are changes:
///
/// - removed, with a drive id and nothing else: the drive was removed;
/// - not removed, with a drive and no item nor item id: the drive was
///   renamed;
/// - removed, with an item id and nothing else: the item was removed;
/// - not removed, with an item and no drive nor drive id: the item changed.
///
/// Any other record is refused.
pub open spec fn decoded_change(r: ChangeRecordView) -> Result<ChangeView, DecodeError> {
    let item = match r.item {
        Some(record) => Some(decoded_item(record)),
        None => None,
    };
    match (r.removed, r.drive, r.drive_id, item, r.item_id) {
        (_, _, _, Some(Err(e)), _) => Err(e),
        (true, None, Some(drive_id), None, None) => Ok(ChangeView::DriveRemoved(drive_id)),
        (false, Some(drive), _, None, None) => Ok(ChangeView::DriveChanged(drive)),
        (true, None, None, None, Some(item_id)) => Ok(ChangeView::ItemRemoved(item_id)),
        (false, None, None, Some(Ok(item)), _) => Ok(ChangeView::ItemChanged(item)),
        _ => Err(DecodeError::UnknownChangeVariant),
    }
}

impl Change {
    /// Decodes a change record; see [`decoded_change`] for the four shapes
    /// that are changes. Every other record is refused, never guessed at.
    pub fn deserialize(record: &ChangeRecord) -> (r: Result<Change, DecodeError>)
        ensures
            match decoded_change(record@) {
                Ok(change) => r matches Ok(c) && c@ == change,
                Err(e) => r == Err::<Change, DecodeError>(e),
            },
    {
        let item = match &record.item {
            Some(inner) => match Item::deserialize(inner) {
                Ok(item) => Some(item),
                Err(e) => {
                    return Err(e);
                },
            },
            None => None,
        };
        match (record.removed, &record.drive, &record.drive_id, item, &record.item_id) {
            (true, None, Some(drive_id), None, None) => Ok(Change::DriveRemoved(drive_id.clone())),
            (false, Some(drive), _, None, None) => Ok(Change::DriveChanged(drive.clone())),
            (true, None, None, None, Some(item_id)) => Ok(Change::ItemRemoved(item_id.clone())),
            (false, None, None, Some(item), _) => Ok(Change::ItemChanged(item)),
            _ => Err(DecodeError::UnknownChangeVariant),
        }
    }
}

/// The values of a list of item records.
pub open spec fn item_records_view(records: Seq<ItemRecord>) -> Seq<ItemRecordView> {
    Seq::new(records.len(), |i: int| records[i]@)
}

/// The values of a list of change records.
pub open spec fn change_records_view(records: Seq<ChangeRecord>) -> Seq<ChangeRecordView> {
    Seq::new(records.len(), |i: int| records[i]@)
}

/// What a list of item records decodes to: the items in order, or the
/// failure of the first record that fails.
pub open spec fn decoded_items(rs: Seq<ItemRecordView>) -> Result<Seq<ItemView>, DecodeError>
    decreases rs.len(),
{
    if rs.len() == 0 {
        Ok(Seq::empty())
    } else {
        match decoded_items(rs.drop_last()) {
            Ok(items) => match decoded_item(rs.last()) {
                Ok(item) => Ok(items.push(item)),
                Err(e) => Err(e),
            },
            Err(e) => Err(e),
        }
    }
}

/// What a list of change records decodes to: the changes in order, or the
/// failure of the first record that fails.
pub open spec fn decoded_changes(rs: Seq<ChangeRecordView>) -> Result<Seq<ChangeView>, DecodeError>
    decreases rs.len(),
{
    if rs.len() == 0 {
        Ok(Seq::empty())
    } else {
        match decoded_changes(rs.drop_last()) {
            Ok(changes) => match decoded_change(rs.last()) {
                Ok(change) => Ok(changes.push(change)),
                Err(e) => Err(e),
            },
            Err(e) => Err(e),
        }
    }
}

/// Decodes a list of item records, all or none: the first record that
/// fails, fails the list.
pub fn decode_items(records: &Vec<ItemRecord>) -> (r: Result<Vec<Item>, DecodeError>)
    ensures
        match decoded_items(item_records_view(records@)) {
            Ok(items) => r matches Ok(v) && items_view(v@) == items,
            Err(e) => r == Err::<Vec<Item>, DecodeError>(e),
        },
{
    let ghost rs = item_records_view(records@);
    let mut out: Vec<Item> = Vec::new();
    let mut i: usize = 0;
    proof {
        assert(rs.take(0) =~= Seq::empty());
        assert(items_view(out@) =~= Seq::empty());
    }
    while i < records.len()
        invariant
            i <= records.len(),
            rs == item_records_view(records@),
            decoded_items(rs.take(i as int)) == Ok::<Seq<ItemView>, DecodeError>(items_view(out@)),
        decreases records.len() - i,
    {
        proof {
            assert(rs.take(i + 1).drop_last() =~= rs.take(i as int));
            assert(rs.take(i + 1).last() == records[i as int]@);
        }
        match Item::deserialize(&records[i]) {
            Ok(item) => {
                let ghost before = items_view(out@);
                out.push(item);
                proof {
                    assert(items_view(out@) =~= before.push(item@));
                }
            },
            Err(e) => {
                proof {
                    lemma_items_fail_on(rs, i + 1);
                }
                return Err(e);
            },
        }
        i += 1;
    }
    proof {
        assert(rs.take(records.len() as int) =~= rs);
    }
    Ok(out)
}

/// A list of item records fails as its first failing prefix does.
pub proof fn lemma_items_fail_on(rs: Seq<ItemRecordView>, k: int)
    requires
        0 <= k <= rs.len(),
        decoded_items(rs.take(k)) is Err,
    ensures
        decoded_items(rs) == decoded_items(rs.take(k)),
    decreases rs.len() - k,
{
    if k < rs.len() {
        assert(rs.take(k + 1).drop_last() =~= rs.take(k));
        lemma_items_fail_on(rs, k + 1);
    } else {
        assert(rs.take(k) =~= rs);
    }
}

/// Decodes a list of change records, all or none: the first record that
/// fails, fails the list.
pub fn decode_changes(records: &Vec<ChangeRecord>) -> (r: Result<Vec<Change>, DecodeError>)
    ensures
        match decoded_changes(change_records_view(records@)) {
            Ok(changes) => r matches Ok(v) && changes_view(v@) == changes,
            Err(e) => r == Err::<Vec<Change>, DecodeError>(e),
        },
{
    let ghost rs = change_records_view(records@);
    let mut out: Vec<Change> = Vec::new();
    let mut i: usize = 0;
    proof {
        assert(rs.take(0) =~= Seq::empty());
        assert(changes_view(out@) =~= Seq::empty());
    }
    while i < records.len()
        invariant
            i <= records.len(),
            rs == change_records_view(records@),
            decoded_changes(rs.take(i as int)) == Ok::<Seq<ChangeView>, DecodeError>(
                changes_view(out@),
            ),
        decreases records.len() - i,
    {
        proof {
            assert(rs.take(i + 1).drop_last() =~= rs.take(i as int));
            assert(rs.take(i + 1).last() == records[i as int]@);
        }
        match Change::deserialize(&records[i]) {
            Ok(change) => {
                let ghost before = changes_view(out@);
                out.push(change);
                proof {
                    assert(changes_view(out@) =~= before.push(change@));
                }
            },
            Err(e) => {
                proof {
                    lemma_changes_fail_on(rs, i + 1);
                }
                return Err(e);
            },
        }
        i += 1;
    }
    proof {
        assert(rs.take(records.len() as int) =~= rs);
    }
    Ok(out)
}

/// A list of change records fails as its first failing prefix does.
pub proof fn lemma_changes_fail_on(rs: Seq<ChangeRecordView>, k: int)
    requires
        0 <= k <= rs.len(),
        decoded_changes(rs.take(k)) is Err,
    ensures
        decoded_changes(rs) == decoded_changes(rs.take(k)),
    decreases rs.len() - k,
{
    if k < rs.len() {
        assert(rs.take(k + 1).drop_last() =~= rs.take(k));
        lemma_changes_fail_on(rs, k + 1);
    } else {
        assert(rs.take(k) =~= rs);
    }
}

/// The classification of changes is exhaustive. A record decodes to a
/// change exactly if its item, where it has one, decodes, and its fields
/// have one of the four shapes; the change then is the one of that shape,
/// with the fields of the record. Every other record is refused.
pub proof fn lemma_change_classification(r: ChangeRecordView)
    ensures
        decoded_change(r) matches Ok(ChangeView::DriveRemoved(id)) <==> r.removed && r.drive is None
            && r.drive_id is Some && r.item is None && r.item_id is None,
        decoded_change(r) matches Ok(ChangeView::DriveRemoved(id)) ==> r.drive_id == Some(id),
        decoded_change(r) matches Ok(ChangeView::DriveChanged(drive)) <==> !r.removed
            && r.drive is Some && r.item is None && r.item_id is None,
        decoded_change(r) matches Ok(ChangeView::DriveChanged(drive)) ==> r.drive == Some(drive),
        decoded_change(r) matches Ok(ChangeView::ItemRemoved(id)) <==> r.removed && r.drive is None
            && r.drive_id is None && r.item is None && r.item_id is Some,
        decoded_change(r) matches Ok(ChangeView::ItemRemoved(id)) ==> r.item_id == Some(id),
        decoded_change(r) matches Ok(ChangeView::ItemChanged(item)) <==> !r.removed
            && r.drive is None && r.drive_id is None && r.item is Some && decoded_item(
            r.item.unwrap(),
        ) is Ok,
        decoded_change(r) matches Ok(ChangeView::ItemChanged(item)) ==> decoded_item(
            r.item.unwrap(),
        ) == Ok::<ItemView, DecodeError>(item),
        r.removed && r.drive is Some && r.item is Some ==> decoded_change(r) is Err,
{
}

/// Decoding an item keeps its fields. A record with a content hash, a size
/// that is a number, and a parent decodes to a file with the id, the
/// drive, the name, the trashed flag, the hash and the size of the record,
/// and its first parent. A record that lacks the hash, the size or the
/// parent decodes to a folder with the fields of the record.
pub proof fn lemma_item_round_trip(r: ItemRecordView)
    ensures
        r.md5_checksum is Some && r.size is Some && r.parents.len() > 0 && decimal_i64(
            r.size.unwrap(),
        ) is Some ==> decoded_item(r) == Ok::<ItemView, DecodeError>(
            ItemView::File(
                FileView {
                    id: r.id,
                    drive_id: r.drive_id,
                    name: r.name,
                    trashed: r.trashed,
                    parent: r.parents[0],
                    md5: r.md5_checksum.unwrap(),
                    size: decimal_i64(r.size.unwrap()).unwrap(),
                },
            ),
        ),
        r.md5_checksum is None || r.size is None || r.parents.len() == 0 ==> decoded_item(r) == Ok::<
            ItemView,
            DecodeError,
        >(
            ItemView::Folder(
                FolderView {
                    id: r.id,
                    drive_id: r.drive_id,
                    name: r.name,
                    trashed: r.trashed,
                    parent: first_of(r.parents),
                },
            ),
        ),
        decoded_item(r) is Err <==> r.md5_checksum is Some && r.size is Some && r.parents.len() > 0
            && decimal_i64(r.size.unwrap()) is None,
{
}

/// The permission that reading a drive needs.
pub const READONLY_SCOPE: &'static str = "https://www.googleapis.com/auth/drive.readonly";

/// The scope that the fetcher asks tokens for: to read drives, for an hour.
pub open spec fn fetch_scope() -> ScopeView {
    ScopeView { lifetime: 3600, scopes: seq![READONLY_SCOPE@] }
}

/// What is needed to ask the remote store: the account, the token cache,
/// and the proxy to ask through, if any.
pub struct Fetcher {
    account: Account,
    proxy: Option<String>,
    refresh_token: RefreshToken,
}

impl Fetcher {
    /// The invariant of the fetcher: that of its token cache.
    pub closed spec fn wf(&self) -> bool {
        self.refresh_token.wf()
    }

    /// The account that the fetcher asks as.
    pub closed spec fn account_view(&self) -> Account {
        self.account
    }

    /// The proxy that the fetcher asks through.
    pub closed spec fn proxy_view(&self) -> Option<Seq<char>> {
        opt_view(self.proxy)
    }

    /// The token cache of the fetcher.
    pub closed spec fn cache(&self) -> RefreshTokenView {
        self.refresh_token@
    }

    /// A fetcher for an account, with an empty token cache for reading
    /// drives and without a proxy.
    pub fn new(account: Account) -> (r: Fetcher)
        ensures
            r.wf(),
            r.account_view() == account,
            r.proxy_view() is None,
            r.cache() == (RefreshTokenView { scope: fetch_scope(), token: None }),
    {
        let scope = Scope::builder().scope(READONLY_SCOPE).lifetime(3600).build();
        proof {
            assert(Seq::<Seq<char>>::empty().push(READONLY_SCOPE@) =~= seq![READONLY_SCOPE@]);
        }
        let refresh_token = RefreshToken::new(scope);
        Fetcher { account, proxy: None, refresh_token }
    }

    /// Starts putting a fetcher together.
    pub fn builder(account: Account) -> (r: FetchBuilder)
        ensures
            r.account == account,
            r.proxy is None,
    {
        FetchBuilder::new(account)
    }

    /// The account that the fetcher asks as.
    pub fn account(&self) -> (r: &Account)
        ensures
            *r == self.account_view(),
    {
        &self.account
    }

    /// The proxy that the fetcher asks through, if any.
    pub fn proxy(&self) -> (r: &Option<String>)
        ensures
            opt_view(*r) == self.proxy_view(),
    {
        &self.proxy
    }

    /// The token to send with a request, if the cache holds one that may
    /// still be used at `now`; `None` where a token has to be minted first.
    pub fn access_token(&self, now: i64) -> (r: Option<AccessToken>)
        ensures
            match self.cache().token {
                Some(t) => if crate::fetch::auth::usable_at(t, now as int) {
                    r matches Some(token) && token@ == t
                } else {
                    r is None
                },
                None => r is None,
            },
    {
        self.refresh_token.access_token_at(now)
    }

    /// The claim set to sign for a new token, issued at `iat` in the name
    /// of the account; `None` where the expiry would not fit in 64 bits.
    pub fn claims(&self, iat: i64) -> (r: Option<Claims>)
        requires
            self.wf(),
        ensures
            match r {
                Some(claims) => claims@ == crate::fetch::auth::claims_at(
                    self.account_view().client_email@,
                    self.cache().scope,
                    iat as int,
                ),
                None => !(i64::MIN <= iat + self.cache().scope.lifetime <= i64::MAX),
            },
    {
        Claims::at(self.account.client_email.as_str(), self.refresh_token.scope(), iat)
    }

    /// Puts a token that was minted into the cache.
    pub fn store_token(&mut self, token: AccessToken)
        requires
            old(self).wf(),
        ensures
            final(self).wf(),
            final(self).account_view() == old(self).account_view(),
            final(self).proxy_view() == old(self).proxy_view(),
            final(self).cache() == (RefreshTokenView { token: Some(token@), ..old(self).cache() }),
    {
        self.refresh_token.refresh(token);
    }
}

/// A fetcher that is being put together.
pub struct FetchBuilder {
    pub account: Account,
    pub proxy: Option<String>,
}

impl FetchBuilder {
    /// Starts with an account and no proxy.
    pub fn new(account: Account) -> (r: FetchBuilder)
        ensures
            r.account == account,
            r.proxy is None,
    {
        FetchBuilder { account, proxy: None }
    }

    /// The fetcher as it was put together, with an empty token cache.
    pub fn build(self) -> (r: Fetcher)
        ensures
            r.wf(),
            r.account_view() == self.account,
            r.proxy_view() == opt_view(self.proxy),
            r.cache() == (RefreshTokenView { scope: fetch_scope(), token: None }),
    {
        let mut fetcher = Fetcher::new(self.account);
        fetcher.proxy = self.proxy;
        fetcher
    }

    /// Asks through a proxy, for debugging.
    pub fn proxy(self, url: &str) -> (r: FetchBuilder)
        ensures
            r.account == self.account,
            opt_view(r.proxy) == Some(url@),
    {
        FetchBuilder { account: self.account, proxy: Some(url.to_owned()) }
    }
}

} // verus!
